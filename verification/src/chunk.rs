use vstd::prelude::*;
use vstd::set_lib::*;
use crate::block::{BlockType, block_name, block_from_name, block_code, is_block_name, lemma_name_round_trip};
use crate::constants::{CHUNK_SIZE, SECTION_HEIGHT, SECTION_VOLUME, SECTIONS_PER_CHUNK, WORLD_HEIGHT};

verus! {

/// One 16 x 16 x 16 slab of a chunk. Cells hold indices into the section's
/// own palette of block names.
#[derive(Debug, Clone)]
pub struct ChunkSection {
    /// Position of the section in its chunk, counted from the bottom.
    pub y: i8,
    /// One palette index per cell, at `(y * 16 + z) * 16 + x`.
    pub blocks: Vec<u8>,
    /// Names of the block kinds that occur, in order of first use.
    pub palette: Vec<String>,
}

/// A column of sections at chunk coordinates `(x, z)`.
#[derive(Debug, Clone)]
pub struct Chunk {
    pub x: i32,
    pub z: i32,
    pub sections: Vec<ChunkSection>,
}

/// Position in `blocks` of the cell at local `(x, y, z)`.
pub open spec fn cell_index(x: int, y: int, z: int) -> int {
    (y * 16 + z) * 16 + x
}

/// Whether `(x, y, z)` lies inside a section.
pub open spec fn in_section(x: int, y: int, z: int) -> bool {
    0 <= x < 16 && 0 <= y < 16 && 0 <= z < 16
}

/// The names held by a palette.
pub open spec fn palette_names(palette: Seq<String>) -> Seq<Seq<char>> {
    Seq::new(palette.len(), |i: int| palette[i]@)
}

/// No name occurs twice.
pub open spec fn names_distinct(names: Seq<Seq<char>>) -> bool {
    forall|i: int, j: int| 0 <= i < j < names.len() ==> names[i] != names[j]
}

/// Every name is the name of a block kind.
pub open spec fn names_known(names: Seq<Seq<char>>) -> bool {
    forall|i: int| 0 <= i < names.len() ==> is_block_name(#[trigger] names[i])
}

/// First position of `name` in `names`, or the length of `names` where it
/// does not occur.
pub open spec fn name_position(names: Seq<Seq<char>>, name: Seq<char>) -> int
    decreases names.len(),
{
    if names.len() == 0 {
        0
    } else if names[0] == name {
        0
    } else {
        1 + name_position(names.skip(1), name)
    }
}

/// The palette after a kind with name `name` was looked up or added.
pub open spec fn names_with(names: Seq<Seq<char>>, name: Seq<char>) -> Seq<Seq<char>> {
    if name_position(names, name) < names.len() {
        names
    } else {
        names.push(name)
    }
}

/// `name_position` finds the first occurrence and nothing before it.
pub proof fn lemma_name_position(names: Seq<Seq<char>>, name: Seq<char>)
    ensures
        0 <= name_position(names, name) <= names.len(),
        name_position(names, name) < names.len() ==> names[name_position(names, name)] == name,
        forall|i: int| 0 <= i < name_position(names, name) ==> names[i] != name,
    decreases names.len(),
{
    if names.len() == 0 {
    } else if names[0] == name {
    } else {
        let rest = names.skip(1);
        lemma_name_position(rest, name);
        let p = name_position(rest, name);
        assert forall|i: int| 0 <= i < 1 + p implies names[i] != name by {
            if i > 0 {
                assert(rest[i - 1] == names[i]);
            }
        }
        if p < rest.len() {
            assert(rest[p] == names[p + 1]);
        }
    }
}

/// A palette of distinct block names holds at most seven entries.
pub proof fn lemma_palette_bounded(names: Seq<Seq<char>>)
    requires
        names_distinct(names),
        names_known(names),
    ensures
        names.len() <= 7,
{
    let codes = Seq::new(names.len(), |i: int| block_code(block_from_name(names[i])));
    assert(codes.no_duplicates()) by {
        assert forall|i: int, j: int| 0 <= i < codes.len() && 0 <= j < codes.len() && i != j implies codes[i] != codes[j] by {
            let a = block_from_name(names[i]);
            let b = block_from_name(names[j]);
            assert(is_block_name(names[i]));
            assert(is_block_name(names[j]));
            if codes[i] == codes[j] {
                assert(a == b);
                assert(names[i] == names[j]);
            }
        }
    }
    codes.unique_seq_to_set();
    lemma_int_range(0, 7);
    assert(codes.to_set().subset_of(set_int_range(0, 7))) by {
        assert forall|c: int| codes.to_set().contains(c) implies set_int_range(0, 7).contains(c) by {
            let i = choose|i: int| 0 <= i < codes.len() && codes[i] == c;
            assert(0 <= block_code(block_from_name(names[i])) < 7);
        }
    }
    lemma_len_subset(codes.to_set(), set_int_range(0, 7));
}

impl ChunkSection {
    /// The names in this section's palette.
    pub open spec fn names(&self) -> Seq<Seq<char>> {
        palette_names(self.palette@)
    }

    /// No cell was written yet: the palette is empty and every index is 0.
    pub open spec fn is_blank(&self) -> bool {
        &&& self.palette@.len() == 0
        &&& forall|i: int| 0 <= i < self.blocks@.len() ==> self.blocks@[i] == 0
    }

    /// Every stored index points into the palette.
    pub open spec fn indices_in_palette(&self) -> bool {
        forall|i: int| 0 <= i < self.blocks@.len() ==> (#[trigger] self.blocks@[i]) < self.palette@.len()
    }

    /// The section can be read: it holds 4096 cells, and every index points
    /// into the palette unless nothing was written.
    pub open spec fn is_whole(&self) -> bool {
        &&& self.blocks@.len() == 4096
        &&& (self.indices_in_palette() || self.is_blank())
    }

    /// The section's invariant: 4096 cells, a palette of distinct block
    /// names, and every index inside the palette unless nothing was written.
    pub open spec fn wf(&self) -> bool {
        &&& self.blocks@.len() == 4096
        &&& names_distinct(self.names())
        &&& names_known(self.names())
        &&& (self.indices_in_palette() || self.is_blank())
    }

    /// The kind at position `i` of the cell array; `Air` where the index
    /// does not point into the palette.
    pub open spec fn kind_at_index(&self, i: int) -> BlockType {
        if 0 <= i < self.blocks@.len() && self.blocks@[i] < self.palette@.len() {
            block_from_name(self.palette@[self.blocks@[i] as int]@)
        } else {
            BlockType::Air
        }
    }

    /// The kind at local `(x, y, z)`; `Air` outside the section.
    pub open spec fn block_at(&self, x: int, y: int, z: int) -> BlockType {
        if in_section(x, y, z) {
            self.kind_at_index(cell_index(x, y, z))
        } else {
            BlockType::Air
        }
    }

    /// A section in which nothing was written; every cell reads as `Air`.
    pub fn empty(y: i8) -> (s: ChunkSection)
        ensures
            s.y == y,
            s.wf(),
            s.is_blank(),
            forall|i: int| s.kind_at_index(i) == BlockType::Air,
    {
        let mut blocks: Vec<u8> = Vec::new();
        let mut i: usize = 0;
        while i < SECTION_VOLUME
            invariant
                i <= SECTION_VOLUME,
                blocks@.len() == i,
                forall|k: int| 0 <= k < i ==> blocks@[k] == 0,
            decreases SECTION_VOLUME - i,
        {
            blocks.push(0);
            i += 1;
        }
        ChunkSection { y, blocks, palette: Vec::new() }
    }

    /// The kind at local `(x, y, z)`; `Air` outside the section.
    pub fn get_block(&self, x: usize, y: usize, z: usize) -> (b: BlockType)
        ensures
            b == self.block_at(x as int, y as int, z as int),
    {
        if x >= CHUNK_SIZE || y >= SECTION_HEIGHT || z >= CHUNK_SIZE {
            return BlockType::Air;
        }
        let index: usize = (y * CHUNK_SIZE + z) * CHUNK_SIZE + x;
        if index >= self.blocks.len() {
            return BlockType::Air;
        }
        let id: usize = self.blocks[index] as usize;
        if id >= self.palette.len() {
            return BlockType::Air;
        }
        BlockType::from_string(self.palette[id].as_str())
    }

    /// Writes `block` at local `(x, y, z)`, adding its name to the palette
    /// on first use. Cells whose index pointed into the palette keep their
    /// kind; the palette only grows at its end.
    pub fn set_block(&mut self, x: usize, y: usize, z: usize, block: BlockType)
        requires
            old(self).wf(),
            in_section(x as int, y as int, z as int),
        ensures
            final(self).wf(),
            final(self).indices_in_palette(),
            final(self).y == old(self).y,
            final(self).names() == names_with(old(self).names(), block_name(block)),
            final(self).blocks@ == old(self).blocks@.update(
                cell_index(x as int, y as int, z as int),
                name_position(old(self).names(), block_name(block)) as u8,
            ),
            final(self).block_at(x as int, y as int, z as int) == block,
            forall|i: int|
                0 <= i < 4096 && i != cell_index(x as int, y as int, z as int)
                    && old(self).blocks@[i] < old(self).palette@.len()
                    ==> final(self).kind_at_index(i) == old(self).kind_at_index(i),
    {
        let ghost before = *self;
        let id: usize = get_or_insert_block_id(&mut self.palette, &block);
        proof {
            lemma_name_position(before.names(), block_name(block));
            lemma_name_round_trip(block);
            lemma_names_kept(before.names(), block_name(block));
            lemma_palette_bounded(self.names());
        }
        let index: usize = (y * CHUNK_SIZE + z) * CHUNK_SIZE + x;
        self.blocks.set(index, id as u8);
        proof {
            let names0 = before.names();
            let names1 = self.names();
            assert(names1[id as int] == block_name(block));
            assert(self.palette@[id as int]@ == names1[id as int]);
            assert forall|i: int| 0 <= i < self.blocks@.len() implies (#[trigger] self.blocks@[i]) < self.palette@.len() by {
                if i != index {
                    assert(self.blocks@[i] == before.blocks@[i]);
                    if before.is_blank() {
                    } else {
                        assert(before.indices_in_palette());
                    }
                }
            }
            assert forall|i: int|
                0 <= i < 4096 && i != cell_index(x as int, y as int, z as int)
                    && before.blocks@[i] < before.palette@.len() implies self.kind_at_index(i)
                == before.kind_at_index(i) by {
                let k = before.blocks@[i] as int;
                assert(names1[k] == names0[k]);
                assert(self.palette@[k]@ == names1[k]);
                assert(before.palette@[k]@ == names0[k]);
            }
        }
    }
}

/// Adding a block name to a palette of distinct block names keeps it one,
/// and keeps every earlier entry in place.
pub proof fn lemma_names_kept(names: Seq<Seq<char>>, name: Seq<char>)
    requires
        names_distinct(names),
        names_known(names),
        is_block_name(name),
    ensures
        names_distinct(names_with(names, name)),
        names_known(names_with(names, name)),
        names.len() <= names_with(names, name).len(),
        forall|i: int| 0 <= i < names.len() ==> names_with(names, name)[i] == names[i],
        names_with(names, name)[name_position(names, name)] == name,
{
    lemma_name_position(names, name);
}

/// Index of `block_type`'s name in `palette`, added at the end when it was
/// not there yet.
pub fn get_or_insert_block_id(palette: &mut Vec<String>, block_type: &BlockType) -> (id: usize)
    ensures
        id == name_position(palette_names(old(palette)@), block_name(*block_type)),
        palette_names(final(palette)@) == names_with(
            palette_names(old(palette)@),
            block_name(*block_type),
        ),
{
    let block_name: String = block_type.to_string();
    let ghost names = palette_names(palette@);
    let mut i: usize = 0;
    while i < palette.len()
        invariant
            i <= palette.len(),
            names == palette_names(palette@),
            palette@ == old(palette)@,
            block_name@ == crate::block::block_name(*block_type),
            forall|k: int| 0 <= k < i ==> names[k] != block_name@,
        decreases palette.len() - i,
    {
        if palette[i] == block_name {
            proof {
                lemma_name_position(names, block_name@);
                assert(names[i as int] == block_name@);
            }
            return i;
        }
        i += 1;
    }
    proof {
        lemma_name_position(names, block_name@);
        if name_position(names, block_name@) < names.len() {
            assert(false);
        }
        assert(palette_names(palette@.push(block_name)) =~= names.push(block_name@));
    }
    palette.push(block_name);
    palette.len() - 1
}

/// First position in `sections` of a section at height index `sy`, or the
/// length of `sections` where there is none.
pub open spec fn section_position(sections: Seq<ChunkSection>, sy: int) -> int
    decreases sections.len(),
{
    if sections.len() == 0 {
        0
    } else if sections[0].y == sy {
        0
    } else {
        1 + section_position(sections.skip(1), sy)
    }
}

/// `section_position` finds the first section at that height.
pub proof fn lemma_section_position(sections: Seq<ChunkSection>, sy: int)
    ensures
        0 <= section_position(sections, sy) <= sections.len(),
        section_position(sections, sy) < sections.len() ==> sections[section_position(
            sections,
            sy,
        )].y == sy,
        forall|i: int| 0 <= i < section_position(sections, sy) ==> sections[i].y != sy,
    decreases sections.len(),
{
    if sections.len() == 0 {
    } else if sections[0].y == sy {
    } else {
        let rest = sections.skip(1);
        lemma_section_position(rest, sy);
        let p = section_position(rest, sy);
        assert forall|i: int| 0 <= i < 1 + p implies sections[i].y != sy by {
            if i > 0 {
                assert(rest[i - 1] == sections[i]);
            }
        }
        if p < rest.len() {
            assert(rest[p] == sections[p + 1]);
        }
    }
}

/// What writing `block` at local `(x, y, z)` does to a complete chunk: the
/// section of the cell holds the block's name, added to its palette on
/// first use, and the cell holds the position of the name; every other
/// section stays; the cell reads as the block, and the cells of its section
/// that held an index into the palette read as before.
pub open spec fn cell_put(before: Chunk, after: Chunk, x: int, y: int, z: int, block: BlockType) -> bool {
    let s = y / 16;
    let index = cell_index(x, y % 16, z);
    &&& after.block_at(x, y, z) == block
    &&& forall|i: int| 0 <= i < 24 && i != s ==> after.sections@[i] == before.sections@[i]
    &&& after.sections@[s].indices_in_palette()
    &&& after.sections@[s].names() == names_with(before.sections@[s].names(), block_name(block))
    &&& after.sections@[s].blocks@ == before.sections@[s].blocks@.update(
        index,
        name_position(before.sections@[s].names(), block_name(block)) as u8,
    )
    &&& forall|i: int|
        0 <= i < 4096 && i != index && before.sections@[s].blocks@[i]
            < before.sections@[s].palette@.len() ==> #[trigger] after.sections@[s].kind_at_index(i)
            == before.sections@[s].kind_at_index(i)
}

impl Chunk {
    /// The kind at local `(x, y, z)`, `y` counted over the whole height of
    /// the world: read from the first section at height index `y / 16`;
    /// `Air` where there is none and everywhere outside the chunk.
    pub open spec fn block_at(&self, x: int, y: int, z: int) -> BlockType {
        if 0 <= x < 16 && 0 <= z < 16 && 0 <= y < 384 {
            let p = section_position(self.sections@, y / 16);
            if p < self.sections@.len() {
                self.sections@[p].block_at(x, y % 16, z)
            } else {
                BlockType::Air
            }
        } else {
            BlockType::Air
        }
    }

    /// The chunk holds its 24 sections in order from the bottom, each
    /// meeting the section invariant. Such a chunk can be written into by
    /// kind of block: its palettes hold names of kinds only, each once, so
    /// that an index of one byte never runs out.
    pub open spec fn is_complete(&self) -> bool {
        &&& self.sections@.len() == 24
        &&& forall|i: int| 0 <= i < 24 ==> (#[trigger] self.sections@[i]).y == i
        &&& forall|i: int| 0 <= i < 24 ==> (#[trigger] self.sections@[i]).wf()
    }

    /// The chunk holds its 24 sections in order from the bottom.
    pub open spec fn in_order(&self) -> bool {
        &&& self.sections@.len() == 24
        &&& forall|i: int| 0 <= i < 24 ==> (#[trigger] self.sections@[i]).y == i
    }

    /// The chunk holds its 24 sections in order from the bottom, and each
    /// can be read. Its palettes may hold any names, also names of no kind,
    /// which read as air, and the same name twice.
    pub open spec fn is_whole(&self) -> bool {
        &&& self.sections@.len() == 24
        &&& forall|i: int| 0 <= i < 24 ==> (#[trigger] self.sections@[i]).y == i
        &&& forall|i: int| 0 <= i < 24 ==> (#[trigger] self.sections@[i]).is_whole()
    }

    /// The chunk's invariant: it holds no section at all, or all of them,
    /// each of which can be read.
    pub open spec fn wf(&self) -> bool {
        self.sections@.len() == 0 || self.is_whole()
    }

    /// A complete chunk is whole.
    pub proof fn lemma_complete_is_whole(&self)
        requires
            self.is_complete(),
        ensures
            self.is_whole(),
    {
        assert forall|i: int| 0 <= i < 24 implies (#[trigger] self.sections@[i]).is_whole() by {
            assert(self.sections@[i].wf());
        }
    }

    /// In a chunk that holds its sections in order the section at height
    /// index `sy` stands at position `sy`.
    pub proof fn lemma_complete_position(&self, sy: int)
        requires
            self.in_order(),
            0 <= sy < 24,
        ensures
            section_position(self.sections@, sy) == sy,
    {
        lemma_section_position(self.sections@, sy);
        let p = section_position(self.sections@, sy);
        if p < sy {
            assert(self.sections@[p].y == p);
        } else if p > sy {
            assert(self.sections@[sy].y == sy);
        }
    }

    /// A chunk at `(x, z)` without sections: the placeholder for a chunk
    /// that was not found. Every cell reads as `Air`.
    pub fn new(x: i32, z: i32) -> (c: Chunk)
        ensures
            c.x == x,
            c.z == z,
            c.sections@.len() == 0,
            c.wf(),
            forall|bx: int, by: int, bz: int| c.block_at(bx, by, bz) == BlockType::Air,
    {
        Chunk { x, z, sections: Vec::new() }
    }

    /// A chunk at `(x, z)` with all 24 sections and nothing written.
    pub fn blank(x: i32, z: i32) -> (c: Chunk)
        ensures
            c.x == x,
            c.z == z,
            c.is_complete(),
            forall|i: int| 0 <= i < 24 ==> (#[trigger] c.sections@[i]).is_blank(),
    {
        let mut sections: Vec<ChunkSection> = Vec::new();
        let mut i: usize = 0;
        while i < SECTIONS_PER_CHUNK
            invariant
                i <= SECTIONS_PER_CHUNK,
                sections@.len() == i,
                forall|k: int| 0 <= k < i ==> (#[trigger] sections@[k]).y == k,
                forall|k: int| 0 <= k < i ==> (#[trigger] sections@[k]).wf(),
                forall|k: int| 0 <= k < i ==> (#[trigger] sections@[k]).is_blank(),
            decreases SECTIONS_PER_CHUNK - i,
        {
            sections.push(ChunkSection::empty(i as i8));
            i += 1;
        }
        Chunk { x, z, sections }
    }

    /// The kind at local `(x, y, z)`. Never fails: a height outside the
    /// world, a column outside the chunk or a missing section reads as `Air`.
    pub fn get_block_at(&self, x: usize, y: usize, z: usize) -> (b: BlockType)
        ensures
            b == self.block_at(x as int, y as int, z as int),
            y >= 384 ==> b == BlockType::Air,
    {
        if x >= CHUNK_SIZE || z >= CHUNK_SIZE || y >= WORLD_HEIGHT {
            return BlockType::Air;
        }
        let section_y: usize = y / SECTION_HEIGHT;
        let local_y: usize = y % SECTION_HEIGHT;
        let mut i: usize = 0;
        while i < self.sections.len()
            invariant
                i <= self.sections.len(),
                x < 16,
                z < 16,
                y < 384,
                section_y == y / 16,
                local_y == y % 16,
                forall|k: int| 0 <= k < i ==> self.sections@[k].y != section_y,
            decreases self.sections.len() - i,
        {
            if self.sections[i].y == section_y as i8 {
                proof {
                    lemma_section_position(self.sections@, section_y as int);
                }
                return self.sections[i].get_block(x, local_y, z);
            }
            i += 1;
        }
        proof {
            lemma_section_position(self.sections@, section_y as int);
        }
        BlockType::Air
    }

    /// Writes `block` at local `(x, y, z)` of a complete chunk. Only the
    /// section at height index `y / 16` changes.
    pub fn set_block_at(&mut self, x: usize, y: usize, z: usize, block: BlockType)
        requires
            old(self).is_complete(),
            x < 16,
            z < 16,
            y < 384,
        ensures
            final(self).is_complete(),
            final(self).x == old(self).x,
            final(self).z == old(self).z,
            cell_put(*old(self), *final(self), x as int, y as int, z as int, block),
    {
        let section_index: usize = y / SECTION_HEIGHT;
        let local_y: usize = y % SECTION_HEIGHT;
        let ghost before = *self;
        self.sections[section_index].set_block(x, local_y, z, block);
        proof {
            assert(self.sections@ =~= before.sections@.update(
                section_index as int,
                self.sections@[section_index as int],
            ));
            assert forall|i: int| 0 <= i < 24 implies (#[trigger] self.sections@[i]).y == i by {
                if i != section_index {
                    assert(self.sections@[i] == before.sections@[i]);
                }
            }
            assert forall|i: int| 0 <= i < 24 implies (#[trigger] self.sections@[i]).wf() by {
                if i != section_index {
                    assert(self.sections@[i] == before.sections@[i]);
                }
            }
            self.lemma_complete_position(section_index as int);
        }
    }
}

impl Chunk {
    /// Position among the sections of the first one at height index `sy`.
    pub fn find_section(&self, sy: usize) -> (r: Option<usize>)
        ensures
            r is Some == (section_position(self.sections@, sy as int) < self.sections@.len()),
            r is Some ==> r->0 == section_position(self.sections@, sy as int),
    {
        if sy > 127 {
            proof {
                lemma_section_position(self.sections@, sy as int);
            }
            return None;
        }
        let mut i: usize = 0;
        while i < self.sections.len()
            invariant
                i <= self.sections.len(),
                sy <= 127,
                forall|k: int| 0 <= k < i ==> self.sections@[k].y != sy,
            decreases self.sections.len() - i,
        {
            if self.sections[i].y == sy as i8 {
                proof {
                    lemma_section_position(self.sections@, sy as int);
                }
                return Some(i);
            }
            i += 1;
        }
        proof {
            lemma_section_position(self.sections@, sy as int);
        }
        None
    }

    /// Stores palette index `palette_index` at local `(x, y, z)` of a
    /// whole chunk, where the index points into the palette of the section;
    /// says whether it did. Nothing else changes, and nothing at all where
    /// it says no.
    pub fn set_index_at(&mut self, x: usize, y: usize, z: usize, palette_index: u8) -> (done: bool)
        requires
            old(self).is_whole(),
        ensures
            final(self).is_whole(),
            old(self).is_complete() ==> final(self).is_complete(),
            final(self).x == old(self).x,
            final(self).z == old(self).z,
            done == (x < 16 && z < 16 && y < 384 && palette_index < old(self).sections@[y as int
                / 16].palette@.len()),
            !done ==> *final(self) == *old(self),
            done ==> final(self).block_at(x as int, y as int, z as int) == block_from_name(
                old(self).sections@[y as int / 16].palette@[palette_index as int]@,
            ),
            done ==> forall|bx: int, by: int, bz: int|
                !(bx == x && by == y && bz == z) ==> #[trigger] final(self).block_at(bx, by, bz)
                    == old(self).block_at(bx, by, bz),
    {
        if x >= CHUNK_SIZE || z >= CHUNK_SIZE || y >= WORLD_HEIGHT {
            return false;
        }
        let section_index: usize = y / SECTION_HEIGHT;
        let local_y: usize = y % SECTION_HEIGHT;
        if palette_index as usize >= self.sections[section_index].palette.len() {
            return false;
        }
        let ghost before = *self;
        let index: usize = (local_y * CHUNK_SIZE + z) * CHUNK_SIZE + x;
        self.sections[section_index].blocks.set(index, palette_index);
        proof {
            let s = section_index as int;
            let new_section = self.sections@[s];
            let old_section = before.sections@[s];
            assert(new_section.palette@ == old_section.palette@);
            assert(new_section.names() == old_section.names());
            assert(new_section.y == old_section.y);
            assert(new_section.blocks@ == old_section.blocks@.update(index as int, palette_index));
            assert forall|i: int| 0 <= i < 24 implies (#[trigger] self.sections@[i]).y == i by {
                if i != s {
                    assert(self.sections@[i] == before.sections@[i]);
                }
            }
            assert(new_section.indices_in_palette()) by {
                assert forall|i: int| 0 <= i < new_section.blocks@.len() implies (
                #[trigger] new_section.blocks@[i]) < new_section.palette@.len() by {
                    if i != index {
                        assert(new_section.blocks@[i] == old_section.blocks@[i]);
                        assert(old_section.is_whole());
                        if old_section.is_blank() {
                        } else {
                            assert(old_section.indices_in_palette());
                        }
                    }
                }
            }
            assert forall|i: int| 0 <= i < 24 implies (#[trigger] self.sections@[i]).is_whole() by {
                if i != s {
                    assert(self.sections@[i] == before.sections@[i]);
                } else {
                    assert(before.sections@[s].is_whole());
                }
            }
            if before.is_complete() {
                assert forall|i: int| 0 <= i < 24 implies (#[trigger] self.sections@[i]).wf() by {
                    if i != s {
                        assert(self.sections@[i] == before.sections@[i]);
                    } else {
                        assert(before.sections@[s].wf());
                    }
                }
            }
            assert forall|bx: int, by: int, bz: int|
                !(bx == x && by == y && bz == z) implies #[trigger] self.block_at(bx, by, bz)
                == before.block_at(bx, by, bz) by {
                if 0 <= bx < 16 && 0 <= bz < 16 && 0 <= by < 384 {
                    self.lemma_complete_position(by / 16);
                    before.lemma_complete_position(by / 16);
                    if by / 16 != s {
                        assert(self.sections@[by / 16] == before.sections@[by / 16]);
                    } else {
                        let ci = cell_index(bx, by % 16, bz);
                        assert(ci != index);
                        assert(new_section.blocks@[ci] == old_section.blocks@[ci]);
                    }
                }
            }
            self.lemma_complete_position(s);
        }
        true
    }
}

/// Whether `section` meets the section invariant.
pub fn section_is_wf(section: &ChunkSection) -> (r: bool)
    ensures
        r == section.wf(),
{
    if section.blocks.len() != SECTION_VOLUME {
        return false;
    }
    let ghost names = section.names();
    let mut i: usize = 0;
    while i < section.palette.len()
        invariant
            i <= section.palette@.len(),
            names == section.names(),
            forall|a: int, b: int| 0 <= a < b < i ==> names[a] != names[b],
            forall|a: int| 0 <= a < i ==> is_block_name(#[trigger] names[a]),
        decreases section.palette@.len() - i,
    {
        let kind = BlockType::from_string(section.palette[i].as_str());
        let name = kind.to_string();
        if name != section.palette[i] {
            proof {
                assert(names[i as int] == section.palette@[i as int]@);
                assert(!is_block_name(names[i as int]));
            }
            return false;
        }
        let mut j: usize = 0;
        while j < i
            invariant
                j <= i,
                i < section.palette@.len(),
                names == section.names(),
                forall|a: int| 0 <= a < j ==> names[a] != names[i as int],
            decreases i - j,
        {
            if section.palette[j] == section.palette[i] {
                proof {
                    assert(names[j as int] == names[i as int]);
                }
                return false;
            }
            j += 1;
        }
        proof {
            assert(names[i as int] == section.palette@[i as int]@);
        }
        i += 1;
    }
    let mut all_zero: bool = true;
    let mut all_in: bool = true;
    let mut c: usize = 0;
    while c < SECTION_VOLUME
        invariant
            c <= 4096,
            section.blocks@.len() == 4096,
            all_zero == (forall|k: int| 0 <= k < c ==> section.blocks@[k] == 0),
            all_in == (forall|k: int|
                0 <= k < c ==> (#[trigger] section.blocks@[k]) < section.palette@.len()),
        decreases 4096 - c,
    {
        if section.blocks[c] != 0 {
            all_zero = false;
        }
        if section.blocks[c] as usize >= section.palette.len() {
            all_in = false;
        }
        c += 1;
    }
    all_in || (all_zero && section.palette.len() == 0)
}

/// What one section holds: its height index, its cell indices and the
/// names of its palette.
pub struct SectionRecord {
    pub y: i8,
    pub blocks: Seq<u8>,
    pub names: Seq<Seq<char>>,
}

/// What a chunk holds: its position and what its sections hold.
pub struct ChunkRecord {
    pub x: i32,
    pub z: i32,
    pub sections: Seq<SectionRecord>,
}

/// What a section holds.
pub open spec fn section_record(section: ChunkSection) -> SectionRecord {
    SectionRecord { y: section.y, blocks: section.blocks@, names: section.names() }
}

/// What a chunk holds.
pub open spec fn chunk_record(chunk: Chunk) -> ChunkRecord {
    ChunkRecord {
        x: chunk.x,
        z: chunk.z,
        sections: Seq::new(chunk.sections@.len(), |i: int| section_record(chunk.sections@[i])),
    }
}

/// Whether what a chunk holds is what a complete chunk holds: 24 sections
/// in order, each with 4096 cells, a palette of different block names, and
/// cells that point into the palette or are all unwritten.
pub open spec fn record_complete(record: ChunkRecord) -> bool {
    &&& record.sections.len() == 24
    &&& forall|i: int|
        0 <= i < 24 ==> {
            let s = #[trigger] record.sections[i];
            &&& s.y == i
            &&& s.blocks.len() == 4096
            &&& names_distinct(s.names)
            &&& names_known(s.names)
            &&& ((forall|c: int| 0 <= c < 4096 ==> (#[trigger] s.blocks[c]) < s.names.len()) || (
            s.names.len() == 0 && forall|c: int| 0 <= c < 4096 ==> s.blocks[c] == 0))
        }
}

/// A chunk is complete exactly if what it holds is what a complete chunk
/// holds.
pub proof fn lemma_complete_by_record(chunk: Chunk)
    ensures
        chunk.is_complete() == record_complete(chunk_record(chunk)),
{
    let record = chunk_record(chunk);
    if chunk.is_complete() {
        assert forall|i: int| 0 <= i < 24 implies {
            let s = #[trigger] record.sections[i];
            &&& s.y == i
            &&& s.blocks.len() == 4096
            &&& names_distinct(s.names)
            &&& names_known(s.names)
            &&& ((forall|c: int| 0 <= c < 4096 ==> (#[trigger] s.blocks[c]) < s.names.len()) || (
            s.names.len() == 0 && forall|c: int| 0 <= c < 4096 ==> s.blocks[c] == 0))
        } by {
            let section = chunk.sections@[i];
            assert(section.wf());
            assert(record.sections[i] == section_record(section));
            if section.indices_in_palette() {
                assert forall|c: int| 0 <= c < 4096 implies (#[trigger] section.blocks@[c])
                    < section.names().len() by {}
            } else {
                assert(section.is_blank());
            }
        }
    }
    if record_complete(record) {
        assert(chunk.sections@.len() == 24);
        assert forall|i: int| 0 <= i < 24 implies (#[trigger] chunk.sections@[i]).y == i
            && chunk.sections@[i].wf() by {
            let section = chunk.sections@[i];
            let s = record.sections[i];
            assert(s == section_record(section));
            if forall|c: int| 0 <= c < 4096 ==> (#[trigger] s.blocks[c]) < s.names.len() {
                assert(section.indices_in_palette());
            } else {
                assert(section.is_blank());
            }
        }
    }
}

/// Chunks that hold the same sections, palettes and cells hold the same
/// kind of block at every position.
pub proof fn lemma_same_record_same_blocks(first: Chunk, second: Chunk)
    requires
        chunk_record(first) == chunk_record(second),
    ensures
        forall|x: int, y: int, z: int| first.block_at(x, y, z) == second.block_at(x, y, z),
{
    let a = first.sections@;
    let b = second.sections@;
    assert(a.len() == b.len()) by {
        assert(chunk_record(first).sections.len() == a.len());
        assert(chunk_record(second).sections.len() == b.len());
    }
    assert forall|i: int| 0 <= i < a.len() implies section_record(#[trigger] a[i]) == section_record(
        b[i],
    ) by {
        assert(chunk_record(first).sections[i] == section_record(a[i]));
        assert(chunk_record(second).sections[i] == section_record(b[i]));
    }
    assert forall|x: int, y: int, z: int| first.block_at(x, y, z) == second.block_at(x, y, z) by {
        if 0 <= x < 16 && 0 <= z < 16 && 0 <= y < 384 {
            let sy = y / 16;
            lemma_section_position(a, sy);
            lemma_section_position(b, sy);
            let p = section_position(a, sy);
            let q = section_position(b, sy);
            if p < a.len() {
                assert(section_record(a[p]) == section_record(b[p]));
                assert(b[p].y == sy);
            }
            if q < b.len() {
                assert(section_record(a[q]) == section_record(b[q]));
                assert(a[q].y == sy);
            }
            if p < q {
                assert(b[p].y != sy);
            }
            if q < p {
                assert(a[q].y != sy);
            }
            assert(p == q);
            if p < a.len() {
                let s = a[p];
                let t = b[p];
                assert(s.blocks@ == t.blocks@);
                assert(s.names() == t.names());
                assert(s.palette@.len() == t.palette@.len()) by {
                    assert(s.names().len() == s.palette@.len());
                    assert(t.names().len() == t.palette@.len());
                }
                let index = cell_index(x, y % 16, z);
                if 0 <= index < s.blocks@.len() && s.blocks@[index] < s.palette@.len() {
                    let k = s.blocks@[index] as int;
                    assert(s.names()[k] == s.palette@[k]@);
                    assert(t.names()[k] == t.palette@[k]@);
                }
            }
        }
    }
}

impl ChunkSection {
    /// A section that holds what this one holds.
    pub fn copy(&self) -> (copy: ChunkSection)
        ensures
            section_record(copy) == section_record(*self),
            copy.wf() == self.wf(),
    {
        let mut blocks: Vec<u8> = Vec::new();
        let mut i: usize = 0;
        while i < self.blocks.len()
            invariant
                i <= self.blocks@.len(),
                blocks@ == self.blocks@.subrange(0, i as int),
            decreases self.blocks@.len() - i,
        {
            blocks.push(self.blocks[i]);
            proof {
                assert(blocks@ =~= self.blocks@.subrange(0, i as int + 1));
            }
            i += 1;
        }
        let mut palette: Vec<String> = Vec::new();
        let mut k: usize = 0;
        while k < self.palette.len()
            invariant
                k <= self.palette@.len(),
                palette@.len() == k,
                forall|j: int| 0 <= j < k ==> (#[trigger] palette@[j])@ == self.palette@[j]@,
            decreases self.palette@.len() - k,
        {
            palette.push(self.palette[k].clone());
            k += 1;
        }
        let copy = ChunkSection { y: self.y, blocks, palette };
        proof {
            assert(copy.blocks@ =~= self.blocks@);
            assert(copy.names() =~= self.names());
            assert(copy.is_blank() == self.is_blank());
            assert(copy.indices_in_palette() == self.indices_in_palette());
        }
        copy
    }
}

impl Chunk {
    /// A chunk that holds what this one holds: the same kind of block at
    /// every position.
    pub fn copy(&self) -> (copy: Chunk)
        ensures
            chunk_record(copy) == chunk_record(*self),
            copy.x == self.x,
            copy.z == self.z,
            copy.is_complete() == self.is_complete(),
            copy.is_whole() == self.is_whole(),
            forall|x: int, y: int, z: int| copy.block_at(x, y, z) == self.block_at(x, y, z),
    {
        let mut sections: Vec<ChunkSection> = Vec::new();
        let mut i: usize = 0;
        while i < self.sections.len()
            invariant
                i <= self.sections@.len(),
                sections@.len() == i,
                forall|j: int|
                    0 <= j < i ==> section_record(#[trigger] sections@[j]) == section_record(
                        self.sections@[j],
                    ),
            decreases self.sections@.len() - i,
        {
            sections.push(self.sections[i].copy());
            i += 1;
        }
        let copy = Chunk { x: self.x, z: self.z, sections };
        proof {
            assert(chunk_record(copy).sections =~= chunk_record(*self).sections);
            lemma_same_record_same_blocks(copy, *self);
            lemma_complete_by_record(copy);
            lemma_complete_by_record(*self);
            lemma_whole_by_record(copy);
            lemma_whole_by_record(*self);
        }
        copy
    }
}

/// Whether `section` can be read.
pub fn section_is_whole(section: &ChunkSection) -> (r: bool)
    ensures
        r == section.is_whole(),
{
    if section.blocks.len() != SECTION_VOLUME {
        return false;
    }
    let mut all_zero: bool = true;
    let mut all_in: bool = true;
    let mut c: usize = 0;
    while c < SECTION_VOLUME
        invariant
            c <= 4096,
            section.blocks@.len() == 4096,
            all_zero == (forall|k: int| 0 <= k < c ==> section.blocks@[k] == 0),
            all_in == (forall|k: int|
                0 <= k < c ==> (#[trigger] section.blocks@[k]) < section.palette@.len()),
        decreases 4096 - c,
    {
        if section.blocks[c] != 0 {
            all_zero = false;
        }
        if section.blocks[c] as usize >= section.palette.len() {
            all_in = false;
        }
        c += 1;
    }
    all_in || (all_zero && section.palette.len() == 0)
}

/// Whether `chunk` holds its 24 sections in order, each of which can be
/// read.
pub fn chunk_is_whole(chunk: &Chunk) -> (r: bool)
    ensures
        r == chunk.is_whole(),
{
    if chunk.sections.len() != 24 {
        return false;
    }
    let mut i: usize = 0;
    while i < 24
        invariant
            i <= 24,
            chunk.sections@.len() == 24,
            forall|k: int| 0 <= k < i ==> (#[trigger] chunk.sections@[k]).y == k,
            forall|k: int| 0 <= k < i ==> (#[trigger] chunk.sections@[k]).is_whole(),
        decreases 24 - i,
    {
        if chunk.sections[i].y != i as i8 {
            return false;
        }
        if !section_is_whole(&chunk.sections[i]) {
            return false;
        }
        i += 1;
    }
    true
}

/// Whether what a chunk holds is what a whole chunk holds: 24 sections in
/// order, each with 4096 cells that point into the palette or are all
/// unwritten.
pub open spec fn record_whole(record: ChunkRecord) -> bool {
    &&& record.sections.len() == 24
    &&& forall|i: int|
        0 <= i < 24 ==> {
            let s = #[trigger] record.sections[i];
            &&& s.y == i
            &&& s.blocks.len() == 4096
            &&& ((forall|c: int| 0 <= c < 4096 ==> (#[trigger] s.blocks[c]) < s.names.len()) || (
            s.names.len() == 0 && forall|c: int| 0 <= c < 4096 ==> s.blocks[c] == 0))
        }
}

/// A chunk is whole exactly if what it holds is what a whole chunk holds.
pub proof fn lemma_whole_by_record(chunk: Chunk)
    ensures
        chunk.is_whole() == record_whole(chunk_record(chunk)),
{
    let record = chunk_record(chunk);
    if chunk.is_whole() {
        assert forall|i: int| 0 <= i < 24 implies {
            let s = #[trigger] record.sections[i];
            &&& s.y == i
            &&& s.blocks.len() == 4096
            &&& ((forall|c: int| 0 <= c < 4096 ==> (#[trigger] s.blocks[c]) < s.names.len()) || (
            s.names.len() == 0 && forall|c: int| 0 <= c < 4096 ==> s.blocks[c] == 0))
        } by {
            let section = chunk.sections@[i];
            assert(section.is_whole());
            assert(record.sections[i] == section_record(section));
            if section.indices_in_palette() {
                assert forall|c: int| 0 <= c < 4096 implies (#[trigger] section.blocks@[c])
                    < section.names().len() by {}
            } else {
                assert(section.is_blank());
            }
        }
    }
    if record_whole(record) {
        assert(chunk.sections@.len() == 24);
        assert forall|i: int| 0 <= i < 24 implies (#[trigger] chunk.sections@[i]).y == i
            && chunk.sections@[i].is_whole() by {
            let section = chunk.sections@[i];
            let s = record.sections[i];
            assert(s == section_record(section));
            if forall|c: int| 0 <= c < 4096 ==> (#[trigger] s.blocks[c]) < s.names.len() {
                assert(section.indices_in_palette());
            } else {
                assert(section.is_blank());
            }
        }
    }
}

} // verus!
