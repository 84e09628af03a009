use vstd::prelude::*;
use crate::biome::{Biome, BiomeType, biome_data, get_biome_data, is_sea};
use crate::biome_map::BiomeMap;
use crate::block::{BlockType, block_name};
use crate::chunk::{Chunk, cell_index, cell_put, name_position, names_with};
use crate::constants::{CHUNK_SIZE, SEA_LEVEL, WORLD_HEIGHT};
use crate::height_map::{HeightMap, height_at, world_coordinate};

verus! {

/// The kind of block at height `y` of a column of biome `biome` whose
/// terrain reaches up to `height`. Under the sea: the biome's underground
/// block up to `height`, water above it up to the sea level of 126, air
/// above that. On land: air above `height`, the biome's surface block at
/// `height`, its underground block in the three cells below, rock below
/// these.
pub open spec fn column_block(biome: BiomeType, height: int, y: int) -> BlockType {
    let data = biome_data(biome);
    if is_sea(biome) {
        if y <= height {
            data.underground_block
        } else if y <= 126 {
            BlockType::Water
        } else {
            BlockType::Air
        }
    } else {
        if y > height {
            BlockType::Air
        } else if y == height {
            data.surface_block
        } else if y + 3 >= height {
            data.underground_block
        } else {
            BlockType::Rock
        }
    }
}

/// The kind of block at height `y` of a column.
pub fn block_for_column(biome: BiomeType, height: usize, y: usize) -> (b: BlockType)
    ensures
        b == column_block(biome, height as int, y as int),
{
    let biome_data: Biome = get_biome_data(biome);
    if biome == BiomeType::Ocean || biome == BiomeType::Abyss {
        if y <= height {
            biome_data.underground_block
        } else if y <= SEA_LEVEL {
            BlockType::Water
        } else {
            BlockType::Air
        }
    } else {
        if y > height {
            BlockType::Air
        } else if y == height {
            biome_data.surface_block
        } else if height - y <= 3 {
            biome_data.underground_block
        } else {
            BlockType::Rock
        }
    }
}

/// The blocks of one section as stored: the cell indices and the names of
/// the palette.
pub type SectionModel = (Seq<u8>, Seq<Seq<char>>);

/// The kinds of the blocks of a chunk, by local `(x, y, z)`.
pub type Kinds = spec_fn(int, int, int) -> BlockType;

/// The kinds of the terrain of chunk `(x, z)`: for each column the biome
/// that rules it and the height that its noise sample gives.
pub open spec fn terrain_kinds(map: BiomeMap, x: int, z: int, noise: Seq<u32>) -> Kinds {
    |lx: int, y: int, lz: int|
        column_block(
            map.climate(world_coordinate(x, lx), world_coordinate(z, lz)).biome,
            height_at(map, x, z, noise, lx, lz) as int,
            y,
        )
}

/// The 24 sections of a chunk in which nothing was written.
pub open spec fn blank_sections() -> Seq<SectionModel> {
    Seq::new(24, |i: int| (Seq::new(4096, |c: int| 0u8), Seq::<Seq<char>>::empty()))
}

/// A section after the block named `name` was written at position `index`.
pub open spec fn section_put(section: SectionModel, index: int, name: Seq<char>) -> SectionModel {
    (section.0.update(index, name_position(section.1, name) as u8), names_with(section.1, name))
}

/// The sections of a chunk after the first `k` cells were written, in the
/// order in which terrain is filled: column after column by `x` and then
/// `z`, each column from the bottom up.
pub open spec fn filled_sections(kinds: Kinds, k: nat) -> Seq<SectionModel>
    decreases k,
{
    if k == 0 {
        blank_sections()
    } else {
        let before = filled_sections(kinds, (k - 1) as nat);
        let c = (k - 1) as int;
        let lx = c / 6144;
        let lz = (c / 384) % 16;
        let y = c % 384;
        before.update(
            y / 16,
            section_put(before[y / 16], cell_index(lx, y % 16, lz), block_name(kinds(lx, y, lz))),
        )
    }
}

/// The sections of `chunk` as stored.
pub open spec fn chunk_model(chunk: Chunk) -> Seq<SectionModel> {
    Seq::new(
        chunk.sections@.len(),
        |i: int| (chunk.sections@[i].blocks@, chunk.sections@[i].names()),
    )
}

/// `chunk` is the terrain of chunk `(x, z)` for the given noise samples and
/// biome map: it holds all sections, stores exactly what filling the
/// terrain cell by cell stores, and every cell reads as the kind of the
/// terrain there.
pub open spec fn is_terrain(chunk: Chunk, x: i32, z: i32, noise: Seq<u32>, map: BiomeMap) -> bool {
    let kinds = terrain_kinds(map, x as int, z as int, noise);
    &&& chunk.x == x
    &&& chunk.z == z
    &&& chunk.is_complete()
    &&& forall|i: int| 0 <= i < 24 ==> (#[trigger] chunk.sections@[i]).indices_in_palette()
    &&& chunk_model(chunk) == filled_sections(kinds, 98304)
    &&& forall|lx: int, y: int, lz: int|
        0 <= lx < 16 && 0 <= y < 384 && 0 <= lz < 16 ==> #[trigger] chunk.block_at(lx, y, lz)
            == kinds(lx, y, lz)
}

/// Making terrain twice from the same chunk position, noise samples and
/// biome map stores the same cell indices and the same palettes.
pub proof fn lemma_terrain_deterministic(
    first: Chunk,
    second: Chunk,
    x: i32,
    z: i32,
    noise: Seq<u32>,
    map: BiomeMap,
)
    requires
        is_terrain(first, x, z, noise, map),
        is_terrain(second, x, z, noise, map),
    ensures
        first.x == second.x,
        first.z == second.z,
        first.sections@.len() == second.sections@.len(),
        forall|i: int|
            0 <= i < 24 ==> first.sections@[i].blocks@ == second.sections@[i].blocks@
                && first.sections@[i].names() == second.sections@[i].names() && first.sections@[i].y
                == second.sections@[i].y,
        forall|lx: int, y: int, lz: int| first.block_at(lx, y, lz) == second.block_at(lx, y, lz),
{
    assert forall|i: int| 0 <= i < 24 implies first.sections@[i].blocks@
        == second.sections@[i].blocks@ && first.sections@[i].names() == second.sections@[i].names()
        && first.sections@[i].y == second.sections@[i].y by {
        assert(chunk_model(first)[i] == chunk_model(second)[i]);
    }
    assert forall|lx: int, y: int, lz: int| first.block_at(lx, y, lz) == second.block_at(
        lx,
        y,
        lz,
    ) by {
        if 0 <= lx < 16 && 0 <= y < 384 && 0 <= lz < 16 {
        }
    }
}

/// Position in filling order of the cell at local `(lx, y, lz)`.
pub open spec fn fill_rank(lx: int, lz: int, y: int) -> int {
    (lx * 16 + lz) * 384 + y
}

/// The first `k` cells of the filling order are written into `chunk`, and
/// nothing else: it is complete, stores what the filling of `k` cells
/// stores, and each of these cells reads as its kind.
#[verifier::opaque]
pub open spec fn filled(chunk: Chunk, kinds: Kinds, k: int) -> bool {
    &&& chunk.is_complete()
    &&& chunk_model(chunk) == filled_sections(kinds, k as nat)
    &&& written(chunk, kinds, k)
}

/// Fills the column at local `(local_x, local_z)` from the bottom up.
fn fill_column(
    chunk: &mut Chunk,
    local_x: usize,
    local_z: usize,
    biome: BiomeType,
    height: usize,
    Ghost(kinds): Ghost<Kinds>,
)
    requires
        local_x < 16,
        local_z < 16,
        filled(*old(chunk), kinds, fill_rank(local_x as int, local_z as int, 0)),
        forall|y: int|
            0 <= y < 384 ==> #[trigger] kinds(local_x as int, y, local_z as int) == column_block(
                biome,
                height as int,
                y,
            ),
    ensures
        final(chunk).x == old(chunk).x,
        final(chunk).z == old(chunk).z,
        filled(*final(chunk), kinds, fill_rank(local_x as int, local_z as int, 384)),
{
    proof {
        lemma_filled_complete(*chunk, kinds, fill_rank(local_x as int, local_z as int, 0));
    }
    let mut y: usize = 0;
    while y < WORLD_HEIGHT
        invariant
            local_x < 16,
            local_z < 16,
            y <= 384,
            chunk.x == old(chunk).x,
            chunk.z == old(chunk).z,
            chunk.is_complete(),
            filled(*chunk, kinds, fill_rank(local_x as int, local_z as int, y as int)),
            forall|h: int|
                0 <= h < 384 ==> #[trigger] kinds(local_x as int, h, local_z as int) == column_block(
                    biome,
                    height as int,
                    h,
                ),
        decreases 384 - y,
    {
        let block_type = block_for_column(biome, height, y);
        let ghost before = *chunk;
        chunk.set_block_at(local_x, y, local_z, block_type);
        proof {
            assert(block_type == kinds(local_x as int, y as int, local_z as int));
            lemma_fill_step(
                before,
                *chunk,
                kinds,
                local_x as int,
                local_z as int,
                y as int,
                block_type,
            );
        }
        y += 1;
    }
}

/// A chunk into which cells were written is complete.
proof fn lemma_filled_complete(chunk: Chunk, kinds: Kinds, k: int)
    requires
        filled(chunk, kinds, k),
    ensures
        chunk.is_complete(),
{
    reveal(filled);
}

/// Writing the next cell of the filling order.
proof fn lemma_fill_step(
    before: Chunk,
    after: Chunk,
    kinds: Kinds,
    lx: int,
    lz: int,
    y: int,
    block: BlockType,
)
    requires
        0 <= lx < 16,
        0 <= lz < 16,
        0 <= y < 384,
        filled(before, kinds, fill_rank(lx, lz, y)),
        after.is_complete(),
        block == kinds(lx, y, lz),
        cell_put(before, after, lx, y, lz, block),
    ensures
        filled(after, kinds, fill_rank(lx, lz, y + 1)),
{
    reveal(filled);
    let k = fill_rank(lx, lz, y);
    lemma_rank_of(lx, lz, y);
    lemma_fill_model(before, after, kinds, k, block);
    lemma_fill_written(before, after, kinds, k, block);
}

/// The position in filling order of a cell leads back to the cell.
proof fn lemma_rank_of(lx: int, lz: int, y: int)
    requires
        0 <= lx < 16,
        0 <= lz < 16,
        0 <= y < 384,
    ensures
        0 <= fill_rank(lx, lz, y) < 98304,
        rank_cell(fill_rank(lx, lz, y)) == (lx, y, lz),
{
}

/// A chunk in which nothing was written.
proof fn lemma_filled_blank(chunk: Chunk, kinds: Kinds)
    requires
        chunk.is_complete(),
        forall|i: int| 0 <= i < 24 ==> (#[trigger] chunk.sections@[i]).is_blank(),
    ensures
        filled(chunk, kinds, 0),
{
    reveal(filled);
    assert forall|i: int| 0 <= i < 24 implies chunk_model(chunk)[i] == blank_sections()[i] by {
        let s = chunk.sections@[i];
        assert(s.is_blank());
        assert(s.wf());
        assert(s.blocks@ =~= Seq::new(4096, |c: int| 0u8));
        assert(s.names() =~= Seq::<Seq<char>>::empty());
    }
    assert(chunk_model(chunk) =~= blank_sections());
}

/// A chunk in which every cell was written is the terrain.
proof fn lemma_filled_whole(chunk: Chunk, kinds: Kinds)
    requires
        filled(chunk, kinds, 98304),
    ensures
        chunk.is_complete(),
        chunk_model(chunk) == filled_sections(kinds, 98304),
        forall|i: int| 0 <= i < 24 ==> (#[trigger] chunk.sections@[i]).indices_in_palette(),
        forall|lx: int, y: int, lz: int|
            0 <= lx < 16 && 0 <= y < 384 && 0 <= lz < 16 ==> #[trigger] chunk.block_at(lx, y, lz)
                == kinds(lx, y, lz),
{
    reveal(filled);
    assert forall|lx: int, y: int, lz: int|
        0 <= lx < 16 && 0 <= y < 384 && 0 <= lz < 16 implies #[trigger] chunk.block_at(lx, y, lz)
        == kinds(lx, y, lz) by {
        chunk.lemma_complete_position(y / 16);
        lemma_rank_of(lx, lz, y);
        assert(cell_written(chunk, kinds, fill_rank(lx, lz, y)));
    }
    assert forall|i: int| 0 <= i < 24 implies (#[trigger] chunk.sections@[i]).indices_in_palette() by {
        lemma_rank_of(0, 0, i * 16);
        assert(cell_written(chunk, kinds, fill_rank(0, 0, i * 16)));
        let s = chunk.sections@[i];
        assert(s.wf());
        if s.is_blank() {
            assert(s.blocks@[cell_index(0, 0, 0)] < s.palette@.len());
        }
    }
}

/// The terrain of chunk `(x, z)`. `noise` holds one sample for each column,
/// at `x * 16 + z`, from 0 to 65536. Every column gets the blocks of the
/// biome that rules it, up to the height that its sample gives; each block
/// is stored through the palette of its section.
pub fn generate_chunk(x: i32, z: i32, noise: &[u32; 256], biomes_map: &BiomeMap, height_map: &HeightMap) -> (chunk:
    Chunk)
    ensures
        is_terrain(chunk, x, z, noise@, *biomes_map),
{
    let mut chunk = Chunk::blank(x, z);
    let heightmap = height_map.get_chunk(x as i64, z as i64, biomes_map, noise);
    let ghost kinds = terrain_kinds(*biomes_map, x as int, z as int, noise@);
    proof {
        lemma_filled_blank(chunk, kinds);
    }
    let mut local_x: usize = 0;
    while local_x < CHUNK_SIZE
        invariant
            local_x <= 16,
            chunk.x == x,
            chunk.z == z,
            kinds == terrain_kinds(*biomes_map, x as int, z as int, noise@),
            heightmap@.len() == 16,
            forall|lx: int| 0 <= lx < 16 ==> (#[trigger] heightmap@[lx])@.len() == 16,
            forall|lx: int, lz: int|
                0 <= lx < 16 && 0 <= lz < 16 ==> (#[trigger] heightmap@[lx]@[lz]) == height_at(
                    *biomes_map,
                    x as int,
                    z as int,
                    noise@,
                    lx,
                    lz,
                ),
            filled(chunk, kinds, fill_rank(local_x as int, 0, 0)),
        decreases 16 - local_x,
    {
        let mut local_z: usize = 0;
        while local_z < CHUNK_SIZE
            invariant
                local_x < 16,
                local_z <= 16,
                chunk.x == x,
                chunk.z == z,
                kinds == terrain_kinds(*biomes_map, x as int, z as int, noise@),
                heightmap@.len() == 16,
                forall|lx: int| 0 <= lx < 16 ==> (#[trigger] heightmap@[lx])@.len() == 16,
                forall|lx: int, lz: int|
                    0 <= lx < 16 && 0 <= lz < 16 ==> (#[trigger] heightmap@[lx]@[lz]) == height_at(
                        *biomes_map,
                        x as int,
                        z as int,
                        noise@,
                        lx,
                        lz,
                    ),
                filled(chunk, kinds, fill_rank(local_x as int, local_z as int, 0)),
            decreases 16 - local_z,
        {
            let world_x: i64 = x as i64 * 16 + local_x as i64;
            let world_z: i64 = z as i64 * 16 + local_z as i64;
            let biome = biomes_map.get_biome(world_x, world_z);
            let height: usize = heightmap[local_x][local_z];
            proof {
                assert(height == heightmap@[local_x as int]@[local_z as int]);
                assert forall|y: int| 0 <= y < 384 implies #[trigger] kinds(
                    local_x as int,
                    y,
                    local_z as int,
                ) == column_block(biome, height as int, y) by {}
            }
            fill_column(&mut chunk, local_x, local_z, biome, height, Ghost(kinds));
            proof {
                assert(fill_rank(local_x as int, local_z as int, 384) == fill_rank(
                    local_x as int,
                    local_z as int + 1,
                    0,
                ));
            }
            local_z += 1;
        }
        proof {
            assert(fill_rank(local_x as int, 16, 0) == fill_rank(local_x as int + 1, 0, 0));
        }
        local_x += 1;
    }
    proof {
        lemma_filled_whole(chunk, kinds);
    }
    chunk
}

/// The cell at position `r` of the filling order, as local `(x, y, z)`.
pub open spec fn rank_cell(r: int) -> (int, int, int) {
    (r / 6144, r % 384, (r / 384) % 16)
}

/// The cell at position `r` of the filling order holds an index into its
/// section's palette and reads as the kind of the terrain there.
pub open spec fn cell_written(chunk: Chunk, kinds: Kinds, r: int) -> bool {
    let (lx, y, lz) = rank_cell(r);
    let section = chunk.sections@[y / 16];
    let index = cell_index(lx, y % 16, lz);
    &&& section.blocks@[index] < section.palette@.len()
    &&& section.kind_at_index(index) == kinds(lx, y, lz)
}

/// The first `k` cells of the filling order are written.
pub open spec fn written(chunk: Chunk, kinds: Kinds, k: int) -> bool {
    forall|r: int| 0 <= r < k ==> #[trigger] cell_written(chunk, kinds, r)
}

/// The cell at each position of the filling order lies inside the chunk,
/// and its position is found again from it.
proof fn lemma_rank_cell(r: int)
    requires
        0 <= r < 98304,
    ensures
        0 <= rank_cell(r).0 < 16,
        0 <= rank_cell(r).1 < 384,
        0 <= rank_cell(r).2 < 16,
        fill_rank(rank_cell(r).0, rank_cell(r).2, rank_cell(r).1) == r,
        0 <= cell_index(rank_cell(r).0, rank_cell(r).1 % 16, rank_cell(r).2) < 4096,
{
}

/// Two positions of the filling order that name the same cell of the same
/// section are the same position.
proof fn lemma_same_cell(r: int, k: int)
    requires
        0 <= r < 98304,
        0 <= k < 98304,
        rank_cell(r).1 / 16 == rank_cell(k).1 / 16,
        cell_index(rank_cell(r).0, rank_cell(r).1 % 16, rank_cell(r).2) == cell_index(
            rank_cell(k).0,
            rank_cell(k).1 % 16,
            rank_cell(k).2,
        ),
    ensures
        r == k,
{
    lemma_rank_cell(r);
    lemma_rank_cell(k);
    let (rx, ry, rz) = rank_cell(r);
    let (kx, ky, kz) = rank_cell(k);
    assert(rx == kx && rz == kz && ry % 16 == ky % 16);
    assert(ry == ky);
}

/// Writing the cell at position `k` of the filling order stores what the
/// filling of `k + 1` cells stores.
proof fn lemma_fill_model(before: Chunk, after: Chunk, kinds: Kinds, k: int, block: BlockType)
    requires
        0 <= k < 98304,
        before.is_complete(),
        after.is_complete(),
        chunk_model(before) == filled_sections(kinds, k as nat),
        block == kinds(rank_cell(k).0, rank_cell(k).1, rank_cell(k).2),
        cell_put(before, after, rank_cell(k).0, rank_cell(k).1, rank_cell(k).2, block),
    ensures
        chunk_model(after) == filled_sections(kinds, (k + 1) as nat),
{
    lemma_rank_cell(k);
    let (lx, y, lz) = rank_cell(k);
    let s = y / 16;
    let old_model = filled_sections(kinds, k as nat);
    let next = filled_sections(kinds, (k + 1) as nat);
    assert(next == old_model.update(
        s,
        section_put(old_model[s], cell_index(lx, y % 16, lz), block_name(block)),
    ));
    assert(chunk_model(before)[s] == old_model[s]);
    assert(chunk_model(after)[s] == next[s]);
    assert forall|i: int| 0 <= i < 24 implies chunk_model(after)[i] == next[i] by {
        if i != s {
            assert(after.sections@[i] == before.sections@[i]);
            assert(chunk_model(before)[i] == old_model[i]);
            assert(chunk_model(after)[i] == chunk_model(before)[i]);
        }
    }
    assert(chunk_model(after) =~= next);
}

/// Writing the cell at position `k` of the filling order keeps the cells
/// before it.
proof fn lemma_fill_written(before: Chunk, after: Chunk, kinds: Kinds, k: int, block: BlockType)
    requires
        0 <= k < 98304,
        before.is_complete(),
        after.is_complete(),
        written(before, kinds, k),
        block == kinds(rank_cell(k).0, rank_cell(k).1, rank_cell(k).2),
        cell_put(before, after, rank_cell(k).0, rank_cell(k).1, rank_cell(k).2, block),
    ensures
        written(after, kinds, k + 1),
{
    lemma_rank_cell(k);
    let (lx, y, lz) = rank_cell(k);
    let s = y / 16;
    let index = cell_index(lx, y % 16, lz);
    after.lemma_complete_position(s);
    assert(after.sections@[s].blocks@[index] < after.sections@[s].palette@.len());
    assert(after.sections@[s].kind_at_index(index) == block);
    assert forall|r: int| 0 <= r < k + 1 implies #[trigger] cell_written(after, kinds, r) by {
        lemma_rank_cell(r);
        let (rx, ry, rz) = rank_cell(r);
        let rs = ry / 16;
        let rindex = cell_index(rx, ry % 16, rz);
        if r == k {
        } else {
            assert(cell_written(before, kinds, r));
            if rs != s {
                assert(after.sections@[rs] == before.sections@[rs]);
            } else {
                if rindex == index {
                    lemma_same_cell(r, k);
                }
                assert(before.sections@[s].blocks@[rindex] < before.sections@[s].palette@.len());
                assert(after.sections@[s].kind_at_index(rindex) == before.sections@[s].kind_at_index(
                    rindex,
                ));
                assert(after.sections@[s].blocks@[rindex] < after.sections@[s].palette@.len());
            }
        }
    }
}

} // verus!
