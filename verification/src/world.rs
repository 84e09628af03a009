use vstd::prelude::*;
use crate::block::{BlockType, block_from_name};
use crate::chunk::{Chunk, chunk_is_whole, chunk_record, section_is_wf};
use crate::window::{BlockWindow, in_window, window_index};

verus! {

/// The handles of the geometry that was made for one section of a chunk.
/// The geometry itself belongs to whoever draws it; the world keeps the
/// handles to have it removed later.
pub struct SectionMeshes {
    pub x: i32,
    pub z: i32,
    pub section: i32,
    pub handles: Vec<u64>,
}

/// The loaded part of the world: the chunks that are resident, at most one
/// for each chunk position, and the geometry handles of their sections.
/// Both are held in lists that are searched by position, with the
/// invariant that no position occurs twice: of a `HashMap` keyed by a tuple
/// of coordinates Verus accepts the calls and proves nothing.
pub struct WorldData {
    chunks_loaded: Vec<Chunk>,
    chunks_sections_meshes: Vec<SectionMeshes>,
}

/// The greater of the distances along the two axes.
pub open spec fn chebyshev(dx: int, dz: int) -> int {
    let ax = if dx < 0 {
        -dx
    } else {
        dx
    };
    let az = if dz < 0 {
        -dz
    } else {
        dz
    };
    if ax > az {
        ax
    } else {
        az
    }
}

/// Whether chunk position `(x, z)` lies within `radius` chunks of
/// `(center_x, center_z)` along both axes.
pub open spec fn in_view(x: int, z: int, center_x: int, center_z: int, radius: int) -> bool {
    chebyshev(x - center_x, z - center_z) <= radius
}

/// Whether chunk position `(x, z)` lies within `radius` chunks of the
/// center.
pub fn within_view(x: i32, z: i32, center_x: i32, center_z: i32, radius: i32) -> (r: bool)
    ensures
        r == in_view(x as int, z as int, center_x as int, center_z as int, radius as int),
{
    let dx: i64 = x as i64 - center_x as i64;
    let dz: i64 = z as i64 - center_z as i64;
    let ax: i64 = if dx < 0 {
        -dx
    } else {
        dx
    };
    let az: i64 = if dz < 0 {
        -dz
    } else {
        dz
    };
    let d: i64 = if ax > az {
        ax
    } else {
        az
    };
    d <= radius as i64
}

/// Whether one of `chunks` stands at chunk position `(x, z)`.
pub open spec fn has_chunk_at(chunks: Seq<Chunk>, x: int, z: int) -> bool {
    exists|i: int| 0 <= i < chunks.len() && (#[trigger] chunks[i]).x == x && chunks[i].z == z
}

/// The one of `chunks` that stands at chunk position `(x, z)`.
pub open spec fn chunk_at(chunks: Seq<Chunk>, x: int, z: int) -> Chunk {
    chunks[choose|i: int| 0 <= i < chunks.len() && (#[trigger] chunks[i]).x == x && chunks[i].z == z]
}

/// No two of `chunks` stand at the same chunk position.
pub open spec fn chunks_distinct(chunks: Seq<Chunk>) -> bool {
    forall|i: int, j: int|
        0 <= i < j < chunks.len() ==> !((#[trigger] chunks[i]).x == (#[trigger] chunks[j]).x
            && chunks[i].z == chunks[j].z)
}

/// Whether `meshes` holds an entry for section `section` of chunk `(x, z)`.
pub open spec fn has_meshes_at(meshes: Seq<SectionMeshes>, x: int, z: int, section: int) -> bool {
    exists|i: int|
        0 <= i < meshes.len() && (#[trigger] meshes[i]).x == x && meshes[i].z == z
            && meshes[i].section == section
}

/// The handles that `meshes` holds for section `section` of chunk `(x, z)`.
pub open spec fn handles_at(meshes: Seq<SectionMeshes>, x: int, z: int, section: int) -> Seq<u64> {
    meshes[choose|i: int|
        0 <= i < meshes.len() && (#[trigger] meshes[i]).x == x && meshes[i].z == z
            && meshes[i].section == section].handles@
}

/// No two entries of `meshes` belong to the same section.
pub open spec fn meshes_distinct(meshes: Seq<SectionMeshes>) -> bool {
    forall|i: int, j: int|
        0 <= i < j < meshes.len() ==> !((#[trigger] meshes[i]).x == (#[trigger] meshes[j]).x
            && meshes[i].z == meshes[j].z && meshes[i].section == meshes[j].section)
}

/// The kind of the block at world position `(x, y, z)` in `chunks`: read
/// from the chunk at `(x / 16, z / 16)`, rounded down; `Air` where no chunk
/// is loaded and outside the height of the world.
pub open spec fn world_block(chunks: Seq<Chunk>, x: int, y: int, z: int) -> BlockType {
    if 0 <= y < 384 && has_chunk_at(chunks, x / 16, z / 16) {
        chunk_at(chunks, x / 16, z / 16).block_at(x % 16, y, z % 16)
    } else {
        BlockType::Air
    }
}

impl WorldData {
    /// The resident chunks, in no order that matters.
    pub closed spec fn chunks(&self) -> Seq<Chunk> {
        self.chunks_loaded@
    }

    /// The entries of geometry handles, in no order that matters.
    pub closed spec fn meshes(&self) -> Seq<SectionMeshes> {
        self.chunks_sections_meshes@
    }

    /// The world's invariant: one chunk at most for each chunk position,
    /// one entry of handles at most for each section.
    pub open spec fn wf(&self) -> bool {
        &&& chunks_distinct(self.chunks())
        &&& meshes_distinct(self.meshes())
    }

    /// Whether a chunk is resident at chunk position `(x, z)`.
    pub open spec fn has_chunk(&self, x: int, z: int) -> bool {
        has_chunk_at(self.chunks(), x, z)
    }

    /// The chunk that is resident at chunk position `(x, z)`.
    pub open spec fn chunk(&self, x: int, z: int) -> Chunk {
        chunk_at(self.chunks(), x, z)
    }

    /// Whether handles are kept for section `section` of chunk `(x, z)`.
    pub open spec fn has_meshes(&self, x: int, z: int, section: int) -> bool {
        has_meshes_at(self.meshes(), x, z, section)
    }

    /// The handles kept for section `section` of chunk `(x, z)`.
    pub open spec fn handles(&self, x: int, z: int, section: int) -> Seq<u64> {
        handles_at(self.meshes(), x, z, section)
    }

    /// The kind of the block at world position `(x, y, z)`.
    pub open spec fn block_at(&self, x: int, y: int, z: int) -> BlockType {
        world_block(self.chunks(), x, y, z)
    }

    /// A world in which nothing is loaded.
    pub fn new() -> (w: WorldData)
        ensures
            w.wf(),
            w.chunks().len() == 0,
            w.meshes().len() == 0,
            forall|x: int, z: int| !w.has_chunk(x, z),
            forall|x: int, z: int, s: int| !w.has_meshes(x, z, s),
    {
        WorldData { chunks_loaded: Vec::new(), chunks_sections_meshes: Vec::new() }
    }

    /// Position among the resident chunks of the chunk at `(x, z)`.
    pub fn find_chunk(&self, x: i32, z: i32) -> (r: Option<usize>)
        ensures
            r is Some == self.has_chunk(x as int, z as int),
            r is Some ==> r->0 < self.chunks().len() && self.chunks()[r->0 as int].x == x
                && self.chunks()[r->0 as int].z == z,
            r is Some && self.wf() ==> self.chunk(x as int, z as int) == self.chunks()[r->0 as int],
    {
        let mut i: usize = 0;
        while i < self.chunks_loaded.len()
            invariant
                i <= self.chunks_loaded@.len(),
                forall|k: int|
                    0 <= k < i ==> !((#[trigger] self.chunks_loaded@[k]).x == x
                        && self.chunks_loaded@[k].z == z),
            decreases self.chunks_loaded@.len() - i,
        {
            if self.chunks_loaded[i].x == x && self.chunks_loaded[i].z == z {
                proof {
                    lemma_chunk_at(self.chunks_loaded@, i as int);
                }
                return Some(i);
            }
            i += 1;
        }
        None
    }

    /// Whether a chunk is resident at chunk position `(x, z)`.
    pub fn contains(&self, x: i32, z: i32) -> (r: bool)
        ensures
            r == self.has_chunk(x as int, z as int),
    {
        self.find_chunk(x, z).is_some()
    }

    /// The chunk that is resident at chunk position `(x, z)`.
    pub fn get_chunk(&self, x: i32, z: i32) -> (r: Option<&Chunk>)
        ensures
            r is Some == self.has_chunk(x as int, z as int),
            r is Some && self.wf() ==> *r->0 == self.chunk(x as int, z as int),
            r is Some ==> r->0.x == x && r->0.z == z,
    {
        match self.find_chunk(x, z) {
            Some(i) => Some(&self.chunks_loaded[i]),
            None => None,
        }
    }

    /// Makes `chunk` the resident chunk at its position, in place of the
    /// one that was resident there, if any. No other position changes.
    pub fn insert_chunk(&mut self, chunk: Chunk)
        requires
            old(self).wf(),
        ensures
            final(self).wf(),
            final(self).has_chunk(chunk.x as int, chunk.z as int),
            final(self).chunk(chunk.x as int, chunk.z as int) == chunk,
            forall|x: int, z: int|
                !(x == chunk.x && z == chunk.z) ==> final(self).has_chunk(x, z) == old(self).has_chunk(x, z),
            forall|x: int, z: int|
                !(x == chunk.x && z == chunk.z) && old(self).has_chunk(x, z) ==> final(self).chunk(
                    x,
                    z,
                ) == old(self).chunk(x, z),
            final(self).meshes() == old(self).meshes(),
    {
        let ghost before = self.chunks_loaded@;
        let ghost cx = chunk.x as int;
        let ghost cz = chunk.z as int;
        match self.find_chunk(chunk.x, chunk.z) {
            Some(i) => {
                self.chunks_loaded.set(i, chunk);
                proof {
                    let after = self.chunks_loaded@;
                    assert(after[i as int] == chunk);
                    lemma_chunk_at(after, i as int);
                    assert forall|x: int, z: int| !(x == cx && z == cz) implies has_chunk_at(
                        after,
                        x,
                        z,
                    ) == has_chunk_at(before, x, z) by {
                        if has_chunk_at(before, x, z) {
                            let k = choose|k: int|
                                0 <= k < before.len() && (#[trigger] before[k]).x == x
                                    && before[k].z == z;
                            assert(after[k] == before[k]);
                        }
                        if has_chunk_at(after, x, z) {
                            let k = choose|k: int|
                                0 <= k < after.len() && (#[trigger] after[k]).x == x && after[k].z
                                    == z;
                            assert(after[k] == before[k]);
                        }
                    }
                    assert forall|x: int, z: int|
                        !(x == cx && z == cz) && has_chunk_at(before, x, z) implies chunk_at(
                        after,
                        x,
                        z,
                    ) == chunk_at(before, x, z) by {
                        let k = choose|k: int|
                            0 <= k < before.len() && (#[trigger] before[k]).x == x && before[k].z
                                == z;
                        assert(after[k] == before[k]);
                        lemma_chunk_at(before, k);
                        lemma_chunk_at(after, k);
                    }
                }
            },
            None => {
                self.chunks_loaded.push(chunk);
                proof {
                    let after = self.chunks_loaded@;
                    let n = before.len() as int;
                    assert(after[n] == chunk);
                    assert(chunks_distinct(after)) by {
                        assert forall|i: int, j: int| 0 <= i < j < after.len() implies !((
                        #[trigger] after[i]).x == (#[trigger] after[j]).x && after[i].z
                            == after[j].z) by {
                            assert(after[i] == before[i]);
                            if j < n {
                                assert(after[j] == before[j]);
                            }
                        }
                    }
                    lemma_chunk_at(after, n);
                    assert forall|x: int, z: int| !(x == cx && z == cz) implies has_chunk_at(
                        after,
                        x,
                        z,
                    ) == has_chunk_at(before, x, z) by {
                        if has_chunk_at(before, x, z) {
                            let k = choose|k: int|
                                0 <= k < before.len() && (#[trigger] before[k]).x == x
                                    && before[k].z == z;
                            assert(after[k] == before[k]);
                        }
                        if has_chunk_at(after, x, z) {
                            let k = choose|k: int|
                                0 <= k < after.len() && (#[trigger] after[k]).x == x && after[k].z
                                    == z;
                            assert(after[k] == before[k]);
                        }
                    }
                    assert forall|x: int, z: int|
                        !(x == cx && z == cz) && has_chunk_at(before, x, z) implies chunk_at(
                        after,
                        x,
                        z,
                    ) == chunk_at(before, x, z) by {
                        let k = choose|k: int|
                            0 <= k < before.len() && (#[trigger] before[k]).x == x && before[k].z
                                == z;
                        assert(after[k] == before[k]);
                        lemma_chunk_at(before, k);
                        lemma_chunk_at(after, k);
                    }
                }
            },
        }
    }

    /// The kind of the block at world position `(x, y, z)`: `Air` where no
    /// chunk is loaded and outside the height of the world.
    pub fn get_block_at(&self, x: isize, y: isize, z: isize) -> (b: BlockType)
        requires
            self.wf(),
        ensures
            b == self.block_at(x as int, y as int, z as int),
            !(0 <= y < 384) ==> b == BlockType::Air,
    {
        self.block_at_world(x as i64, y as i64, z as i64)
    }

    /// The kind of the block at world position `(x, y, z)`.
    pub fn block_at_world(&self, x: i64, y: i64, z: i64) -> (b: BlockType)
        requires
            self.wf(),
        ensures
            b == self.block_at(x as int, y as int, z as int),
            !(0 <= y < 384) ==> b == BlockType::Air,
    {
        if y >= 384 || y < 0 {
            return BlockType::Air;
        }
        let chunk_x: i64 = floor_div_16(x);
        let chunk_z: i64 = floor_div_16(z);
        let local_x: usize = floor_mod_16(x);
        let local_z: usize = floor_mod_16(z);
        if chunk_x < -0x8000_0000 || chunk_x > 0x7fff_ffff || chunk_z < -0x8000_0000 || chunk_z
            > 0x7fff_ffff {
            proof {
                assert(!self.has_chunk(chunk_x as int, chunk_z as int));
            }
            return BlockType::Air;
        }
        match self.get_chunk(chunk_x as i32, chunk_z as i32) {
            Some(chunk) => chunk.get_block_at(local_x, y as usize, local_z),
            None => BlockType::Air,
        }
    }
}

impl WorldData {
    /// Number of resident chunks.
    pub fn chunk_count(&self) -> (n: usize)
        ensures
            n == self.chunks().len(),
    {
        self.chunks_loaded.len()
    }

    /// The positions of the resident chunks.
    pub fn loaded_positions(&self) -> (r: Vec<(i32, i32)>)
        ensures
            r@.len() == self.chunks().len(),
            forall|i: int|
                0 <= i < r@.len() ==> (#[trigger] r@[i]) == (self.chunks()[i].x, self.chunks()[i].z),
    {
        let mut r: Vec<(i32, i32)> = Vec::new();
        let mut i: usize = 0;
        while i < self.chunks_loaded.len()
            invariant
                i <= self.chunks_loaded@.len(),
                r@.len() == i,
                forall|k: int|
                    0 <= k < i ==> (#[trigger] r@[k]) == (
                        self.chunks_loaded@[k].x,
                        self.chunks_loaded@[k].z,
                    ),
            decreases self.chunks_loaded@.len() - i,
        {
            r.push((self.chunks_loaded[i].x, self.chunks_loaded[i].z));
            i += 1;
        }
        r
    }

    /// Stores palette index `palette_index` at world position
    /// `(wx, wy, wz)`, where a whole chunk is resident there and the
    /// index points into the palette of the section. Otherwise nothing
    /// changes.
    pub fn set_block(&mut self, wx: i32, wy: i32, wz: i32, palette_index: u8)
        requires
            old(self).wf(),
        ensures
            final(self).wf(),
            final(self).meshes() == old(self).meshes(),
            forall|x: int, z: int| final(self).has_chunk(x, z) == old(self).has_chunk(x, z),
            forall|x: int, z: int|
                old(self).has_chunk(x, z) && !(x == wx as int / 16 && z == wz as int / 16)
                    ==> final(self).chunk(x, z) == old(self).chunk(x, z),
            !settable(old(self).chunks(), wx as int, wy as int, wz as int, palette_index)
                ==> final(self).chunks() == old(self).chunks(),
            settable(old(self).chunks(), wx as int, wy as int, wz as int, palette_index) ==> {
                let before = old(self).chunk(wx as int / 16, wz as int / 16);
                let after = final(self).chunk(wx as int / 16, wz as int / 16);
                &&& after.is_whole()
                &&& after.block_at(wx as int % 16, wy as int, wz as int % 16) == block_from_name(
                    before.sections@[wy as int / 16].palette@[palette_index as int]@,
                )
                &&& forall|bx: int, by: int, bz: int|
                    !(bx == wx as int % 16 && by == wy && bz == wz as int % 16)
                        ==> #[trigger] after.block_at(bx, by, bz) == before.block_at(bx, by, bz)
            },
    {
        if wy < 0 || wy >= 384 {
            return ;
        }
        let chunk_x: i64 = floor_div_16(wx as i64);
        let chunk_z: i64 = floor_div_16(wz as i64);
        let local_x: usize = floor_mod_16(wx as i64);
        let local_z: usize = floor_mod_16(wz as i64);
        let ghost before = self.chunks_loaded@;
        match self.find_chunk(chunk_x as i32, chunk_z as i32) {
            Some(i) => {
                proof {
                    lemma_chunk_at(before, i as int);
                }
                if !chunk_is_whole(&self.chunks_loaded[i]) {
                    return ;
                }
                let done = self.chunks_loaded[i].set_index_at(
                    local_x,
                    wy as usize,
                    local_z,
                    palette_index,
                );
                proof {
                    let after = self.chunks_loaded@;
                    assert(after =~= before.update(i as int, after[i as int]));
                    if !done {
                        assert(after[i as int] == before[i as int]);
                        assert(after =~= before);
                    }
                    lemma_same_positions(before, after);
                    lemma_chunk_at(after, i as int);
                    assert forall|x: int, z: int|
                        has_chunk_at(before, x, z) && !(x == wx as int / 16 && z == wz as int / 16)
                        implies chunk_at(after, x, z) == chunk_at(before, x, z) by {
                        let k = choose|k: int|
                            0 <= k < before.len() && (#[trigger] before[k]).x == x && before[k].z
                                == z;
                        lemma_chunk_at(before, k);
                        lemma_chunk_at(after, k);
                    }
                }
            },
            None => {},
        }
    }
}

/// Whether a palette index can be stored at world position `(x, y, z)`: a
/// whole chunk is resident there, and the index points into the palette
/// of the section.
pub open spec fn settable(chunks: Seq<Chunk>, x: int, y: int, z: int, palette_index: u8) -> bool {
    &&& 0 <= y < 384
    &&& has_chunk_at(chunks, x / 16, z / 16)
    &&& chunk_at(chunks, x / 16, z / 16).is_whole()
    &&& palette_index < chunk_at(chunks, x / 16, z / 16).sections@[y / 16].palette@.len()
}

/// Whether `chunk` holds its 24 sections in order, each meeting the
/// section invariant.
pub fn chunk_is_complete(chunk: &Chunk) -> (r: bool)
    ensures
        r == chunk.is_complete(),
{
    if chunk.sections.len() != 24 {
        return false;
    }
    let mut i: usize = 0;
    while i < 24
        invariant
            i <= 24,
            chunk.sections@.len() == 24,
            forall|k: int| 0 <= k < i ==> (#[trigger] chunk.sections@[k]).y == k,
            forall|k: int| 0 <= k < i ==> (#[trigger] chunk.sections@[k]).wf(),
        decreases 24 - i,
    {
        if chunk.sections[i].y != i as i8 {
            return false;
        }
        if !section_is_wf(&chunk.sections[i]) {
            return false;
        }
        i += 1;
    }
    true
}

/// Lists of chunks that stand at the same positions, entry by entry, hold
/// chunks at the same positions, and distinct positions in one are distinct
/// in the other.
pub proof fn lemma_same_positions(before: Seq<Chunk>, after: Seq<Chunk>)
    requires
        before.len() == after.len(),
        forall|i: int|
            0 <= i < before.len() ==> (#[trigger] before[i]).x == after[i].x && before[i].z
                == after[i].z,
    ensures
        forall|x: int, z: int| has_chunk_at(after, x, z) == has_chunk_at(before, x, z),
        chunks_distinct(before) ==> chunks_distinct(after),
{
    assert forall|x: int, z: int| has_chunk_at(after, x, z) == has_chunk_at(before, x, z) by {
        if has_chunk_at(before, x, z) {
            let k = choose|k: int|
                0 <= k < before.len() && (#[trigger] before[k]).x == x && before[k].z == z;
            assert(after[k].x == x && after[k].z == z);
        }
        if has_chunk_at(after, x, z) {
            let k = choose|k: int|
                0 <= k < after.len() && (#[trigger] after[k]).x == x && after[k].z == z;
            assert(before[k].x == x && before[k].z == z);
        }
    }
    if chunks_distinct(before) {
        assert forall|i: int, j: int| 0 <= i < j < after.len() implies !((#[trigger] after[i]).x == (
        #[trigger] after[j]).x && after[i].z == after[j].z) by {
            assert(before[i].x == after[i].x && before[j].x == after[j].x);
            assert(!(before[i].x == before[j].x && before[i].z == before[j].z));
        }
    }
}

/// `x / 16`, rounded down.
pub fn floor_div_16(x: i64) -> (q: i64)
    ensures
        q == x as int / 16,
{
    match x.checked_div_euclid(16) {
        Some(q) => q,
        None => 0,
    }
}

/// What `x / 16`, rounded down, leaves of `x`: from 0 to 15.
pub fn floor_mod_16(x: i64) -> (r: usize)
    ensures
        r == x as int % 16,
        r < 16,
{
    match x.checked_rem_euclid(16) {
        Some(r) => r as usize,
        None => 0,
    }
}

/// In a list of chunks at distinct positions, the chunk at the position of
/// entry `i` is entry `i`.
pub proof fn lemma_chunk_at(chunks: Seq<Chunk>, i: int)
    requires
        0 <= i < chunks.len(),
    ensures
        has_chunk_at(chunks, chunks[i].x as int, chunks[i].z as int),
        chunks_distinct(chunks) ==> chunk_at(chunks, chunks[i].x as int, chunks[i].z as int)
            == chunks[i],
{
    let x = chunks[i].x as int;
    let z = chunks[i].z as int;
    if chunks_distinct(chunks) {
        let k = choose|k: int| 0 <= k < chunks.len() && (#[trigger] chunks[k]).x == x && chunks[k].z == z;
        if k < i {
            assert(!(chunks[k].x == chunks[i].x && chunks[k].z == chunks[i].z));
        } else if i < k {
            assert(!(chunks[i].x == chunks[k].x && chunks[i].z == chunks[k].z));
        }
    }
}

/// In a list of entries for distinct sections, the handles of the section
/// of entry `i` are those of entry `i`.
pub proof fn lemma_handles_at(meshes: Seq<SectionMeshes>, i: int)
    requires
        0 <= i < meshes.len(),
    ensures
        has_meshes_at(meshes, meshes[i].x as int, meshes[i].z as int, meshes[i].section as int),
        meshes_distinct(meshes) ==> handles_at(
            meshes,
            meshes[i].x as int,
            meshes[i].z as int,
            meshes[i].section as int,
        ) == meshes[i].handles@,
{
    let x = meshes[i].x as int;
    let z = meshes[i].z as int;
    let s = meshes[i].section as int;
    if meshes_distinct(meshes) {
        let k = choose|k: int|
            0 <= k < meshes.len() && (#[trigger] meshes[k]).x == x && meshes[k].z == z
                && meshes[k].section == s;
        if k < i {
            assert(!(meshes[k].x == meshes[i].x && meshes[k].z == meshes[i].z && meshes[k].section
                == meshes[i].section));
        } else if i < k {
            assert(!(meshes[i].x == meshes[k].x && meshes[i].z == meshes[k].z && meshes[i].section
                == meshes[k].section));
        }
    }
}

impl WorldData {
    /// Position among the entries of handles of the one for section
    /// `section` of chunk `(x, z)`.
    pub fn find_meshes(&self, x: i32, z: i32, section: i32) -> (r: Option<usize>)
        ensures
            r is Some == self.has_meshes(x as int, z as int, section as int),
            r is Some ==> r->0 < self.meshes().len() && self.meshes()[r->0 as int].x == x
                && self.meshes()[r->0 as int].z == z && self.meshes()[r->0 as int].section
                == section,
            r is Some && self.wf() ==> self.handles(x as int, z as int, section as int)
                == self.meshes()[r->0 as int].handles@,
    {
        let mut i: usize = 0;
        while i < self.chunks_sections_meshes.len()
            invariant
                i <= self.chunks_sections_meshes@.len(),
                forall|k: int|
                    0 <= k < i ==> !((#[trigger] self.chunks_sections_meshes@[k]).x == x
                        && self.chunks_sections_meshes@[k].z == z
                        && self.chunks_sections_meshes@[k].section == section),
            decreases self.chunks_sections_meshes@.len() - i,
        {
            let entry = &self.chunks_sections_meshes[i];
            if entry.x == x && entry.z == z && entry.section == section {
                proof {
                    lemma_handles_at(self.chunks_sections_meshes@, i as int);
                }
                return Some(i);
            }
            i += 1;
        }
        None
    }

    /// Number of handles kept for section `section` of chunk `(x, z)`.
    pub fn handle_count(&self, x: i32, z: i32, section: i32) -> (n: usize)
        requires
            self.wf(),
        ensures
            n == (if self.has_meshes(x as int, z as int, section as int) {
                self.handles(x as int, z as int, section as int).len()
            } else {
                0
            }),
    {
        match self.find_meshes(x, z, section) {
            Some(i) => self.chunks_sections_meshes[i].handles.len(),
            None => 0,
        }
    }

    /// Keeps `handle` for section `section` of chunk `(x, z)`, behind the
    /// handles already kept for it. No other section changes.
    pub fn add_section_mesh(&mut self, x: i32, z: i32, section: i32, handle: u64)
        requires
            old(self).wf(),
        ensures
            final(self).wf(),
            final(self).chunks() == old(self).chunks(),
            final(self).has_meshes(x as int, z as int, section as int),
            final(self).handles(x as int, z as int, section as int) == (if old(self).has_meshes(
                x as int,
                z as int,
                section as int,
            ) {
                old(self).handles(x as int, z as int, section as int)
            } else {
                Seq::<u64>::empty()
            }).push(handle),
            forall|a: int, b: int, s: int|
                !(a == x && b == z && s == section) ==> final(self).has_meshes(a, b, s) == old(self).has_meshes(a, b, s),
            forall|a: int, b: int, s: int|
                !(a == x && b == z && s == section) && old(self).has_meshes(a, b, s) ==> final(self).handles(a, b, s) == old(self).handles(a, b, s),
    {
        let ghost before = self.chunks_sections_meshes@;
        match self.find_meshes(x, z, section) {
            Some(i) => {
                self.chunks_sections_meshes[i].handles.push(handle);
                proof {
                    let after = self.chunks_sections_meshes@;
                    assert(after.len() == before.len());
                    assert forall|k: int| 0 <= k < before.len() implies (#[trigger] before[k]).x
                        == after[k].x && before[k].z == after[k].z && before[k].section
                        == after[k].section && (k != i ==> before[k] == after[k]) by {}
                    lemma_same_sections(before, after);
                    lemma_handles_at(after, i as int);
                    assert forall|a: int, b: int, s: int|
                        !(a == x && b == z && s == section) && has_meshes_at(
                            before,
                            a,
                            b,
                            s,
                        ) implies handles_at(after, a, b, s) == handles_at(before, a, b, s) by {
                        let k = choose|k: int|
                            0 <= k < before.len() && (#[trigger] before[k]).x == a && before[k].z
                                == b && before[k].section == s;
                        lemma_handles_at(before, k);
                        lemma_handles_at(after, k);
                    }
                }
            },
            None => {
                let mut handles: Vec<u64> = Vec::new();
                handles.push(handle);
                self.chunks_sections_meshes.push(SectionMeshes { x, z, section, handles });
                proof {
                    let after = self.chunks_sections_meshes@;
                    let n = before.len() as int;
                    assert(after[n].handles@ =~= Seq::<u64>::empty().push(handle));
                    assert(meshes_distinct(after)) by {
                        assert forall|i: int, j: int| 0 <= i < j < after.len() implies !((
                        #[trigger] after[i]).x == (#[trigger] after[j]).x && after[i].z
                            == after[j].z && after[i].section == after[j].section) by {
                            assert(after[i] == before[i]);
                            if j < n {
                                assert(after[j] == before[j]);
                            }
                        }
                    }
                    lemma_handles_at(after, n);
                    assert forall|a: int, b: int, s: int|
                        !(a == x && b == z && s == section) implies has_meshes_at(after, a, b, s)
                        == has_meshes_at(before, a, b, s) by {
                        if has_meshes_at(before, a, b, s) {
                            let k = choose|k: int|
                                0 <= k < before.len() && (#[trigger] before[k]).x == a
                                    && before[k].z == b && before[k].section == s;
                            assert(after[k] == before[k]);
                        }
                        if has_meshes_at(after, a, b, s) {
                            let k = choose|k: int|
                                0 <= k < after.len() && (#[trigger] after[k]).x == a && after[k].z
                                    == b && after[k].section == s;
                            assert(after[k] == before[k]);
                        }
                    }
                    assert forall|a: int, b: int, s: int|
                        !(a == x && b == z && s == section) && has_meshes_at(
                            before,
                            a,
                            b,
                            s,
                        ) implies handles_at(after, a, b, s) == handles_at(before, a, b, s) by {
                        let k = choose|k: int|
                            0 <= k < before.len() && (#[trigger] before[k]).x == a && before[k].z
                                == b && before[k].section == s;
                        assert(after[k] == before[k]);
                        lemma_handles_at(before, k);
                        lemma_handles_at(after, k);
                    }
                }
            },
        }
    }
}

/// Lists of entries that belong to the same sections, entry by entry, hold
/// entries for the same sections, and distinct sections in one are distinct
/// in the other.
pub proof fn lemma_same_sections(before: Seq<SectionMeshes>, after: Seq<SectionMeshes>)
    requires
        before.len() == after.len(),
        forall|i: int|
            0 <= i < before.len() ==> (#[trigger] before[i]).x == after[i].x && before[i].z
                == after[i].z && before[i].section == after[i].section,
    ensures
        forall|x: int, z: int, s: int| has_meshes_at(after, x, z, s) == has_meshes_at(before, x, z, s),
        meshes_distinct(before) ==> meshes_distinct(after),
{
    assert forall|x: int, z: int, s: int| has_meshes_at(after, x, z, s) == has_meshes_at(
        before,
        x,
        z,
        s,
    ) by {
        if has_meshes_at(before, x, z, s) {
            let k = choose|k: int|
                0 <= k < before.len() && (#[trigger] before[k]).x == x && before[k].z == z
                    && before[k].section == s;
            assert(after[k].x == x && after[k].z == z && after[k].section == s);
        }
        if has_meshes_at(after, x, z, s) {
            let k = choose|k: int|
                0 <= k < after.len() && (#[trigger] after[k]).x == x && after[k].z == z
                    && after[k].section == s;
            assert(before[k].x == x && before[k].z == z && before[k].section == s);
        }
    }
    if meshes_distinct(before) {
        assert forall|i: int, j: int| 0 <= i < j < after.len() implies !((#[trigger] after[i]).x == (
        #[trigger] after[j]).x && after[i].z == after[j].z && after[i].section
            == after[j].section) by {
            assert(before[i].x == after[i].x && before[j].x == after[j].x);
            assert(!(before[i].x == before[j].x && before[i].z == before[j].z && before[i].section
                == before[j].section));
        }
    }
}

impl WorldData {
    /// Unloads every chunk that lies more than `view_distance` chunks from
    /// `(center_x, center_z)` along either axis, together with the entries
    /// of geometry handles of such chunks. Returns the removed entries, so
    /// that the geometry behind their handles can be destroyed. What lies
    /// within the distance stays as it was.
    pub fn unload_distant(&mut self, center_x: i32, center_z: i32, view_distance: i32) -> (removed:
        Vec<SectionMeshes>)
        requires
            old(self).wf(),
        ensures
            final(self).wf(),
            forall|x: int, z: int|
                final(self).has_chunk(x, z) == (old(self).has_chunk(x, z) && in_view(
                    x,
                    z,
                    center_x as int,
                    center_z as int,
                    view_distance as int,
                )),
            forall|x: int, z: int|
                final(self).has_chunk(x, z) ==> final(self).chunk(x, z) == old(self).chunk(x, z),
            forall|x: int, z: int, s: int|
                final(self).has_meshes(x, z, s) == (old(self).has_meshes(x, z, s) && in_view(
                    x,
                    z,
                    center_x as int,
                    center_z as int,
                    view_distance as int,
                )),
            forall|x: int, z: int, s: int|
                final(self).has_meshes(x, z, s) ==> final(self).handles(x, z, s) == old(self).handles(x, z, s),
            meshes_distinct(removed@),
            forall|x: int, z: int, s: int|
                has_meshes_at(removed@, x, z, s) == (old(self).has_meshes(x, z, s) && !in_view(
                    x,
                    z,
                    center_x as int,
                    center_z as int,
                    view_distance as int,
                )),
            forall|x: int, z: int, s: int|
                has_meshes_at(removed@, x, z, s) ==> handles_at(removed@, x, z, s) == old(self).handles(x, z, s),
    {
        let ghost cx = center_x as int;
        let ghost cz = center_z as int;
        let ghost r = view_distance as int;
        let ghost old_chunks = self.chunks_loaded@;
        let ghost old_meshes = self.chunks_sections_meshes@;
        let mut kept: Vec<Chunk> = Vec::new();
        let ghost mut from: Seq<int> = Seq::empty();
        while self.chunks_loaded.len() > 0
            invariant
                self.chunks_loaded@.len() <= old_chunks.len(),
                self.chunks_loaded@ == old_chunks.take(self.chunks_loaded@.len() as int),
                self.chunks_sections_meshes@ == old_meshes,
                cx == center_x as int,
                cz == center_z as int,
                r == view_distance as int,
                chunks_distinct(old_chunks),
                from.len() == kept@.len(),
                forall|m: int|
                    0 <= m < kept@.len() ==> self.chunks_loaded@.len() <= (#[trigger] from[m])
                        < old_chunks.len() && kept@[m] == old_chunks[from[m]] && in_view(
                        old_chunks[from[m]].x as int,
                        old_chunks[from[m]].z as int,
                        cx,
                        cz,
                        r,
                    ),
                forall|m: int, n: int| 0 <= m < n < kept@.len() ==> from[m] > from[n],
                forall|j: int|
                    self.chunks_loaded@.len() <= j < old_chunks.len() && in_view(
                        (#[trigger] old_chunks[j]).x as int,
                        old_chunks[j].z as int,
                        cx,
                        cz,
                        r,
                    ) ==> exists|m: int| 0 <= m < kept@.len() && #[trigger] from[m] == j,
            decreases self.chunks_loaded@.len(),
        {
            let ghost n = self.chunks_loaded@.len() as int;
            let chunk = self.chunks_loaded.pop().unwrap();
            proof {
                assert(chunk == old_chunks[n - 1]);
                assert(self.chunks_loaded@ =~= old_chunks.take(n - 1));
            }
            if within_view(chunk.x, chunk.z, center_x, center_z, view_distance) {
                let ghost old_from = from;
                let ghost old_len = kept@.len() as int;
                kept.push(chunk);
                proof {
                    from = from.push(n - 1);
                    assert forall|j: int|
                        n - 1 <= j < old_chunks.len() && in_view(
                            (#[trigger] old_chunks[j]).x as int,
                            old_chunks[j].z as int,
                            cx,
                            cz,
                            r,
                        ) implies exists|m: int| 0 <= m < kept@.len() && #[trigger] from[m] == j by {
                        if j == n - 1 {
                            assert(from[old_len] == j);
                        } else {
                            let m = choose|m: int| 0 <= m < old_len && #[trigger] old_from[m] == j;
                            assert(from[m] == j);
                        }
                    }
                }
            } else {
                proof {
                    assert forall|j: int|
                        n - 1 <= j < old_chunks.len() && in_view(
                            (#[trigger] old_chunks[j]).x as int,
                            old_chunks[j].z as int,
                            cx,
                            cz,
                            r,
                        ) implies exists|m: int| 0 <= m < kept@.len() && #[trigger] from[m] == j by {
                        assert(j != n - 1);
                        let m = choose|m: int| 0 <= m < kept@.len() && #[trigger] from[m] == j;
                        assert(from[m] == j);
                    }
                }
            }
        }
        proof {
            lemma_kept_chunks(old_chunks, kept@, from, cx, cz, r);
        }
        self.chunks_loaded = kept;

        let mut kept_meshes: Vec<SectionMeshes> = Vec::new();
        let mut removed: Vec<SectionMeshes> = Vec::new();
        let ghost mut from_kept: Seq<int> = Seq::empty();
        let ghost mut from_removed: Seq<int> = Seq::empty();
        while self.chunks_sections_meshes.len() > 0
            invariant
                self.chunks_sections_meshes@.len() <= old_meshes.len(),
                self.chunks_sections_meshes@ == old_meshes.take(
                    self.chunks_sections_meshes@.len() as int,
                ),
                self.chunks_loaded@ == kept@,
                cx == center_x as int,
                cz == center_z as int,
                r == view_distance as int,
                meshes_distinct(old_meshes),
                from_kept.len() == kept_meshes@.len(),
                from_removed.len() == removed@.len(),
                forall|m: int|
                    0 <= m < kept_meshes@.len() ==> self.chunks_sections_meshes@.len() <= (
                    #[trigger] from_kept[m]) < old_meshes.len() && kept_meshes@[m]
                        == old_meshes[from_kept[m]] && in_view(
                        old_meshes[from_kept[m]].x as int,
                        old_meshes[from_kept[m]].z as int,
                        cx,
                        cz,
                        r,
                    ),
                forall|m: int|
                    0 <= m < removed@.len() ==> self.chunks_sections_meshes@.len() <= (
                    #[trigger] from_removed[m]) < old_meshes.len() && removed@[m]
                        == old_meshes[from_removed[m]] && !in_view(
                        old_meshes[from_removed[m]].x as int,
                        old_meshes[from_removed[m]].z as int,
                        cx,
                        cz,
                        r,
                    ),
                forall|m: int, n: int| 0 <= m < n < kept_meshes@.len() ==> from_kept[m] > from_kept[n],
                forall|m: int, n: int| 0 <= m < n < removed@.len() ==> from_removed[m] > from_removed[n],
                forall|j: int|
                    self.chunks_sections_meshes@.len() <= j < old_meshes.len() && in_view(
                        (#[trigger] old_meshes[j]).x as int,
                        old_meshes[j].z as int,
                        cx,
                        cz,
                        r,
                    ) ==> exists|m: int| 0 <= m < kept_meshes@.len() && #[trigger] from_kept[m] == j,
                forall|j: int|
                    self.chunks_sections_meshes@.len() <= j < old_meshes.len() && !in_view(
                        (#[trigger] old_meshes[j]).x as int,
                        old_meshes[j].z as int,
                        cx,
                        cz,
                        r,
                    ) ==> exists|m: int| 0 <= m < removed@.len() && #[trigger] from_removed[m] == j,
            decreases self.chunks_sections_meshes@.len(),
        {
            let ghost n = self.chunks_sections_meshes@.len() as int;
            let entry = self.chunks_sections_meshes.pop().unwrap();
            proof {
                assert(entry == old_meshes[n - 1]);
                assert(self.chunks_sections_meshes@ =~= old_meshes.take(n - 1));
            }
            let ghost old_kept = from_kept;
            let ghost old_removed = from_removed;
            let ghost kept_len = kept_meshes@.len() as int;
            let ghost removed_len = removed@.len() as int;
            if within_view(entry.x, entry.z, center_x, center_z, view_distance) {
                kept_meshes.push(entry);
                proof {
                    from_kept = from_kept.push(n - 1);
                    assert(from_kept[kept_len] == n - 1);
                }
            } else {
                removed.push(entry);
                proof {
                    from_removed = from_removed.push(n - 1);
                    assert(from_removed[removed_len] == n - 1);
                }
            }
            proof {
                assert forall|j: int|
                    n - 1 <= j < old_meshes.len() && in_view(
                        (#[trigger] old_meshes[j]).x as int,
                        old_meshes[j].z as int,
                        cx,
                        cz,
                        r,
                    ) implies exists|m: int|
                    0 <= m < kept_meshes@.len() && #[trigger] from_kept[m] == j by {
                    if j == n - 1 {
                        assert(from_kept[kept_len] == j);
                    } else {
                        let m = choose|m: int| 0 <= m < kept_len && #[trigger] old_kept[m] == j;
                        assert(from_kept[m] == j);
                    }
                }
                assert forall|j: int|
                    n - 1 <= j < old_meshes.len() && !in_view(
                        (#[trigger] old_meshes[j]).x as int,
                        old_meshes[j].z as int,
                        cx,
                        cz,
                        r,
                    ) implies exists|m: int|
                    0 <= m < removed@.len() && #[trigger] from_removed[m] == j by {
                    if j == n - 1 {
                        assert(from_removed[removed_len] == j);
                    } else {
                        let m = choose|m: int| 0 <= m < removed_len && #[trigger] old_removed[m] == j;
                        assert(from_removed[m] == j);
                    }
                }
            }
        }
        proof {
            lemma_kept_meshes(old_meshes, kept_meshes@, from_kept, cx, cz, r, true);
            lemma_kept_meshes(old_meshes, removed@, from_removed, cx, cz, r, false);
        }
        self.chunks_sections_meshes = kept_meshes;
        removed
    }
}

/// `kept` holds, each once, exactly the chunks of `all` that lie in view.
proof fn lemma_kept_chunks(all: Seq<Chunk>, kept: Seq<Chunk>, from: Seq<int>, cx: int, cz: int, r: int)
    requires
        chunks_distinct(all),
        from.len() == kept.len(),
        forall|m: int|
            0 <= m < kept.len() ==> 0 <= (#[trigger] from[m]) < all.len() && kept[m]
                == all[from[m]] && in_view(all[from[m]].x as int, all[from[m]].z as int, cx, cz, r),
        forall|m: int, n: int| 0 <= m < n < kept.len() ==> from[m] > from[n],
        forall|j: int|
            0 <= j < all.len() && in_view((#[trigger] all[j]).x as int, all[j].z as int, cx, cz, r)
                ==> exists|m: int| 0 <= m < kept.len() && #[trigger] from[m] == j,
    ensures
        chunks_distinct(kept),
        forall|x: int, z: int|
            has_chunk_at(kept, x, z) == (has_chunk_at(all, x, z) && in_view(x, z, cx, cz, r)),
        forall|x: int, z: int| has_chunk_at(kept, x, z) ==> chunk_at(kept, x, z) == chunk_at(all, x, z),
{
    assert forall|i: int, j: int| 0 <= i < j < kept.len() implies !((#[trigger] kept[i]).x == (
    #[trigger] kept[j]).x && kept[i].z == kept[j].z) by {
        let a = from[i];
        let b = from[j];
        assert(b < a);
        assert(!(all[b].x == all[a].x && all[b].z == all[a].z));
    }
    assert forall|x: int, z: int|
        has_chunk_at(kept, x, z) == (has_chunk_at(all, x, z) && in_view(x, z, cx, cz, r)) by {
        if has_chunk_at(kept, x, z) {
            let m = choose|m: int| 0 <= m < kept.len() && (#[trigger] kept[m]).x == x && kept[m].z == z;
            assert(all[from[m]].x == x && all[from[m]].z == z);
        }
        if has_chunk_at(all, x, z) && in_view(x, z, cx, cz, r) {
            let j = choose|j: int| 0 <= j < all.len() && (#[trigger] all[j]).x == x && all[j].z == z;
            let m = choose|m: int| 0 <= m < kept.len() && #[trigger] from[m] == j;
            assert(kept[m].x == x && kept[m].z == z);
        }
    }
    assert forall|x: int, z: int| has_chunk_at(kept, x, z) implies chunk_at(kept, x, z) == chunk_at(
        all,
        x,
        z,
    ) by {
        let m = choose|m: int| 0 <= m < kept.len() && (#[trigger] kept[m]).x == x && kept[m].z == z;
        lemma_chunk_at(kept, m);
        lemma_chunk_at(all, from[m]);
    }
}

/// `part` holds, each once, exactly the entries of `all` that lie in view,
/// or exactly those that do not.
proof fn lemma_kept_meshes(
    all: Seq<SectionMeshes>,
    part: Seq<SectionMeshes>,
    from: Seq<int>,
    cx: int,
    cz: int,
    r: int,
    inside: bool,
)
    requires
        meshes_distinct(all),
        from.len() == part.len(),
        forall|m: int|
            0 <= m < part.len() ==> 0 <= (#[trigger] from[m]) < all.len() && part[m]
                == all[from[m]] && in_view(all[from[m]].x as int, all[from[m]].z as int, cx, cz, r)
                == inside,
        forall|m: int, n: int| 0 <= m < n < part.len() ==> from[m] > from[n],
        forall|j: int|
            0 <= j < all.len() && in_view((#[trigger] all[j]).x as int, all[j].z as int, cx, cz, r)
                == inside ==> exists|m: int| 0 <= m < part.len() && #[trigger] from[m] == j,
    ensures
        meshes_distinct(part),
        forall|x: int, z: int, s: int|
            has_meshes_at(part, x, z, s) == (has_meshes_at(all, x, z, s) && in_view(x, z, cx, cz, r)
                == inside),
        forall|x: int, z: int, s: int|
            has_meshes_at(part, x, z, s) ==> handles_at(part, x, z, s) == handles_at(all, x, z, s),
{
    assert forall|i: int, j: int| 0 <= i < j < part.len() implies !((#[trigger] part[i]).x == (
    #[trigger] part[j]).x && part[i].z == part[j].z && part[i].section == part[j].section) by {
        let a = from[i];
        let b = from[j];
        assert(b < a);
        assert(!(all[b].x == all[a].x && all[b].z == all[a].z && all[b].section == all[a].section));
    }
    assert forall|x: int, z: int, s: int|
        has_meshes_at(part, x, z, s) == (has_meshes_at(all, x, z, s) && in_view(x, z, cx, cz, r)
            == inside) by {
        if has_meshes_at(part, x, z, s) {
            let m = choose|m: int|
                0 <= m < part.len() && (#[trigger] part[m]).x == x && part[m].z == z
                    && part[m].section == s;
            assert(all[from[m]].x == x && all[from[m]].z == z && all[from[m]].section == s);
        }
        if has_meshes_at(all, x, z, s) && in_view(x, z, cx, cz, r) == inside {
            let j = choose|j: int|
                0 <= j < all.len() && (#[trigger] all[j]).x == x && all[j].z == z && all[j].section
                    == s;
            let m = choose|m: int| 0 <= m < part.len() && #[trigger] from[m] == j;
            assert(part[m].x == x && part[m].z == z && part[m].section == s);
        }
    }
    assert forall|x: int, z: int, s: int| has_meshes_at(part, x, z, s) implies handles_at(
        part,
        x,
        z,
        s,
    ) == handles_at(all, x, z, s) by {
        let m = choose|m: int|
            0 <= m < part.len() && (#[trigger] part[m]).x == x && part[m].z == z && part[m].section
                == s;
        lemma_handles_at(part, m);
        lemma_handles_at(all, from[m]);
    }
}

impl WorldData {
    /// The window of section `section` of the chunk position
    /// `(chunk_x, chunk_z)`: the blocks of the section and, around it, the
    /// blocks of the sections and chunks that touch it, as far as they are
    /// resident.
    pub fn section_window(&self, chunk_x: i32, chunk_z: i32, section: usize) -> (w: BlockWindow)
        requires
            self.wf(),
            section < 24,
        ensures
            forall|x: int, y: int, z: int|
                in_window(x, y, z) ==> #[trigger] w.at(x, y, z) == self.block_at(
                    chunk_x * 16 + x,
                    section * 16 + y,
                    chunk_z * 16 + z,
                ),
    {
        let base_x: i64 = chunk_x as i64 * 16;
        let base_y: i64 = section as i64 * 16;
        let base_z: i64 = chunk_z as i64 * 16;
        let mut cells: Vec<BlockType> = Vec::new();
        let mut y: i32 = -1;
        while y <= 16
            invariant
                -1 <= y <= 17,
                self.wf(),
                base_x == chunk_x * 16,
                base_y == section * 16,
                base_z == chunk_z * 16,
                section < 24,
                cells@.len() == (y + 1) * 324,
                forall|cx: int, cy: int, cz: int|
                    in_window(cx, cy, cz) && cy < y ==> cells@[window_index(cx, cy, cz)]
                        == self.block_at(base_x + cx, base_y + cy, base_z + cz),
            decreases 17 - y,
        {
            let mut z: i32 = -1;
            while z <= 16
                invariant
                    -1 <= y <= 16,
                    -1 <= z <= 17,
                    self.wf(),
                    base_x == chunk_x * 16,
                    base_y == section * 16,
                    base_z == chunk_z * 16,
                    section < 24,
                    cells@.len() == (y + 1) * 324 + (z + 1) * 18,
                    forall|cx: int, cy: int, cz: int|
                        in_window(cx, cy, cz) && (cy < y || (cy == y && cz < z))
                            ==> cells@[window_index(cx, cy, cz)] == self.block_at(
                            base_x + cx,
                            base_y + cy,
                            base_z + cz,
                        ),
                decreases 17 - z,
            {
                let mut x: i32 = -1;
                while x <= 16
                    invariant
                        -1 <= y <= 16,
                        -1 <= z <= 16,
                        -1 <= x <= 17,
                        self.wf(),
                        base_x == chunk_x * 16,
                        base_y == section * 16,
                        base_z == chunk_z * 16,
                        section < 24,
                        cells@.len() == (y + 1) * 324 + (z + 1) * 18 + (x + 1),
                        forall|cx: int, cy: int, cz: int|
                            in_window(cx, cy, cz) && (cy < y || (cy == y && (cz < z || (cz == z
                                && cx < x)))) ==> cells@[window_index(cx, cy, cz)]
                                == self.block_at(base_x + cx, base_y + cy, base_z + cz),
                    decreases 17 - x,
                {
                    let kind = self.block_at_world(
                        base_x + x as i64,
                        base_y + y as i64,
                        base_z + z as i64,
                    );
                    cells.push(kind);
                    x += 1;
                }
                z += 1;
            }
            y += 1;
        }
        BlockWindow::from_cells(cells)
    }
}

/// The handles of the first `n` entries, entry after entry.
pub open spec fn handles_upto(meshes: Seq<SectionMeshes>, n: nat) -> Seq<u64>
    decreases n,
{
    if n == 0 {
        Seq::empty()
    } else {
        handles_upto(meshes, (n - 1) as nat) + meshes[n - 1].handles@
    }
}

impl WorldData {
    /// Every geometry handle that the world keeps, entry after entry.
    pub fn all_handles(&self) -> (r: Vec<u64>)
        ensures
            r@ == handles_upto(self.meshes(), self.meshes().len()),
    {
        let mut r: Vec<u64> = Vec::new();
        let mut i: usize = 0;
        while i < self.chunks_sections_meshes.len()
            invariant
                i <= self.chunks_sections_meshes@.len(),
                r@ == handles_upto(self.chunks_sections_meshes@, i as nat),
            decreases self.chunks_sections_meshes@.len() - i,
        {
            let entry = &self.chunks_sections_meshes[i];
            let ghost before = r@;
            let mut k: usize = 0;
            while k < entry.handles.len()
                invariant
                    k <= entry.handles@.len(),
                    r@ == before + entry.handles@.subrange(0, k as int),
                decreases entry.handles@.len() - k,
            {
                r.push(entry.handles[k]);
                proof {
                    assert(entry.handles@.subrange(0, k as int + 1) =~= entry.handles@.subrange(
                        0,
                        k as int,
                    ).push(entry.handles@[k as int]));
                    assert(r@ =~= before + entry.handles@.subrange(0, k as int + 1));
                }
                k += 1;
            }
            proof {
                assert(entry.handles@.subrange(0, entry.handles@.len() as int) =~= entry.handles@);
            }
            i += 1;
        }
        r
    }
}

/// Whether chunk position `(a, b)` is `(x, z)` or touches it, along an axis
/// or across a corner.
pub open spec fn beside(a: int, b: int, x: int, z: int) -> bool {
    x - 1 <= a <= x + 1 && z - 1 <= b <= z + 1
}

impl WorldData {
    /// A world of its own that holds copies of the resident chunks at and
    /// around chunk position `(x, z)`: everything that the geometry of the
    /// chunk at `(x, z)` depends on, for a task to take along.
    pub fn snapshot_around(&self, x: i32, z: i32) -> (snapshot: WorldData)
        requires
            self.wf(),
        ensures
            snapshot.wf(),
            snapshot.meshes().len() == 0,
            forall|a: int, b: int|
                snapshot.has_chunk(a, b) == (self.has_chunk(a, b) && beside(a, b, x as int, z as int)),
            forall|a: int, b: int|
                snapshot.has_chunk(a, b) ==> chunk_record(snapshot.chunk(a, b)) == chunk_record(
                    self.chunk(a, b),
                ),
            forall|bx: int, by: int, bz: int|
                beside(bx / 16, bz / 16, x as int, z as int) ==> #[trigger] snapshot.block_at(
                    bx,
                    by,
                    bz,
                ) == self.block_at(bx, by, bz),
    {
        let mut snapshot = WorldData::new();
        let mut dx: i64 = -1;
        while dx <= 1
            invariant
                -1 <= dx <= 2,
                self.wf(),
                snapshot.wf(),
                snapshot.meshes().len() == 0,
                forall|a: int, b: int|
                    snapshot.has_chunk(a, b) == (self.has_chunk(a, b) && beside(
                        a,
                        b,
                        x as int,
                        z as int,
                    ) && a - x < dx),
                forall|a: int, b: int|
                    snapshot.has_chunk(a, b) ==> chunk_record(snapshot.chunk(a, b)) == chunk_record(
                        self.chunk(a, b),
                    ),
            decreases 2 - dx,
        {
            let mut dz: i64 = -1;
            while dz <= 1
                invariant
                    -1 <= dx <= 1,
                    -1 <= dz <= 2,
                    self.wf(),
                    snapshot.wf(),
                    snapshot.meshes().len() == 0,
                    forall|a: int, b: int|
                        snapshot.has_chunk(a, b) == (self.has_chunk(a, b) && beside(
                            a,
                            b,
                            x as int,
                            z as int,
                        ) && (a - x < dx || (a - x == dx && b - z < dz))),
                    forall|a: int, b: int|
                        snapshot.has_chunk(a, b) ==> chunk_record(snapshot.chunk(a, b))
                            == chunk_record(self.chunk(a, b)),
                decreases 2 - dz,
            {
                let cx: i64 = x as i64 + dx;
                let cz: i64 = z as i64 + dz;
                if -0x8000_0000 <= cx && cx <= 0x7fff_ffff && -0x8000_0000 <= cz && cz <= 0x7fff_ffff {
                    match self.get_chunk(cx as i32, cz as i32) {
                        Some(chunk) => {
                            let copy = chunk.copy();
                            snapshot.insert_chunk(copy);
                        },
                        None => {},
                    }
                } else {
                    proof {
                        assert(!self.has_chunk(cx as int, cz as int)) by {
                            if self.has_chunk(cx as int, cz as int) {
                                let k = choose|k: int|
                                    0 <= k < self.chunks().len() && (#[trigger] self.chunks()[k]).x
                                        == cx && self.chunks()[k].z == cz;
                                assert(false);
                            }
                        }
                    }
                }
                dz += 1;
            }
            dx += 1;
        }
        proof {
            assert forall|bx: int, by: int, bz: int|
                beside(bx / 16, bz / 16, x as int, z as int) implies #[trigger] snapshot.block_at(
                bx,
                by,
                bz,
            ) == self.block_at(bx, by, bz) by {
                let a = bx / 16;
                let b = bz / 16;
                if 0 <= by < 384 && self.has_chunk(a, b) {
                    assert(snapshot.has_chunk(a, b));
                    crate::chunk::lemma_same_record_same_blocks(snapshot.chunk(a, b), self.chunk(a, b));
                }
            }
        }
        snapshot
    }
}

} // verus!
