use vstd::prelude::*;
use crate::block::{BlockType, block_from_name};
use crate::chunk::{ChunkSection, in_section};

verus! {

/// Number of cells along one edge of a window: a section and one layer of
/// cells on each side.
pub const WINDOW_EDGE: usize = 18;

/// Number of cells in a window.
pub const WINDOW_VOLUME: usize = 5832;

/// The block kinds of one section together with the cells that touch it
/// from outside, at local coordinates from -1 to 16 on each axis.
pub struct BlockWindow {
    cells: Vec<BlockType>,
}

/// Whether `(x, y, z)` lies inside a window.
pub open spec fn in_window(x: int, y: int, z: int) -> bool {
    -1 <= x <= 16 && -1 <= y <= 16 && -1 <= z <= 16
}

/// Position in a window's cell array of local `(x, y, z)`.
pub open spec fn window_index(x: int, y: int, z: int) -> int {
    ((y + 1) * 18 + (z + 1)) * 18 + (x + 1)
}

/// Different cells of a window have different positions, all below 5832.
pub proof fn lemma_window_index(x: int, y: int, z: int)
    requires
        in_window(x, y, z),
    ensures
        0 <= window_index(x, y, z) < 5832,
        window_index(x, y, z) % 18 == x + 1,
        (window_index(x, y, z) / 18) % 18 == z + 1,
        window_index(x, y, z) / 324 == y + 1,
{
}

impl BlockWindow {
    #[verifier::type_invariant]
    spec fn full(&self) -> bool {
        self.cells@.len() == 5832
    }

    /// The kind at local `(x, y, z)`; `Air` outside the window.
    pub closed spec fn at(&self, x: int, y: int, z: int) -> BlockType {
        if in_window(x, y, z) && window_index(x, y, z) < self.cells@.len() {
            self.cells@[window_index(x, y, z)]
        } else {
            BlockType::Air
        }
    }

    /// A window from a full cell array.
    pub(crate) fn from_cells(cells: Vec<BlockType>) -> (w: BlockWindow)
        requires
            cells@.len() == 5832,
        ensures
            forall|x: int, y: int, z: int|
                in_window(x, y, z) ==> #[trigger] w.at(x, y, z) == cells@[window_index(x, y, z)],
            forall|x: int, y: int, z: int| !in_window(x, y, z) ==> #[trigger] w.at(x, y, z) == BlockType::Air,
    {
        proof {
            assert forall|x: int, y: int, z: int| in_window(x, y, z) implies window_index(x, y, z) < 5832 by {
                lemma_window_index(x, y, z);
            }
        }
        BlockWindow { cells }
    }

    /// The kind at local `(x, y, z)`; `Air` outside the window.
    pub fn get(&self, x: i32, y: i32, z: i32) -> (b: BlockType)
        ensures
            b == self.at(x as int, y as int, z as int),
    {
        proof {
            use_type_invariant(self);
        }
        if x < -1 || x > 16 || y < -1 || y > 16 || z < -1 || z > 16 {
            return BlockType::Air;
        }
        proof {
            lemma_window_index(x as int, y as int, z as int);
        }
        let index: usize = (((y + 1) * 18 + (z + 1)) * 18 + (x + 1)) as usize;
        self.cells[index]
    }

    /// The window of a section that stands alone: every cell outside the
    /// section is `Air`.
    pub fn from_section(section: &ChunkSection) -> (w: BlockWindow)
        ensures
            forall|x: int, y: int, z: int| #[trigger] w.at(x, y, z) == section.block_at(x, y, z),
    {
        let kinds = decode_palette(&section.palette);
        let mut cells: Vec<BlockType> = Vec::new();
        let mut y: i32 = -1;
        while y <= 16
            invariant
                -1 <= y <= 17,
                cells@.len() == (y + 1) * 324,
                kinds@.len() == section.palette@.len(),
                forall|k: int| 0 <= k < kinds@.len() ==> kinds@[k] == block_from_name(section.palette@[k]@),
                forall|cx: int, cy: int, cz: int|
                    in_window(cx, cy, cz) && cy < y ==> cells@[window_index(cx, cy, cz)]
                        == section.block_at(cx, cy, cz),
            decreases 17 - y,
        {
            let mut z: i32 = -1;
            while z <= 16
                invariant
                    -1 <= y <= 16,
                    -1 <= z <= 17,
                    cells@.len() == (y + 1) * 324 + (z + 1) * 18,
                    kinds@.len() == section.palette@.len(),
                    forall|k: int| 0 <= k < kinds@.len() ==> kinds@[k] == block_from_name(section.palette@[k]@),
                    forall|cx: int, cy: int, cz: int|
                        in_window(cx, cy, cz) && (cy < y || (cy == y && cz < z)) ==> cells@[window_index(cx, cy, cz)]
                            == section.block_at(cx, cy, cz),
                decreases 17 - z,
            {
                let mut x: i32 = -1;
                while x <= 16
                    invariant
                        -1 <= y <= 16,
                        -1 <= z <= 16,
                        -1 <= x <= 17,
                        cells@.len() == (y + 1) * 324 + (z + 1) * 18 + (x + 1),
                        kinds@.len() == section.palette@.len(),
                        forall|k: int| 0 <= k < kinds@.len() ==> kinds@[k] == block_from_name(section.palette@[k]@),
                        forall|cx: int, cy: int, cz: int|
                            in_window(cx, cy, cz) && (cy < y || (cy == y && (cz < z || (cz == z
                                && cx < x)))) ==> cells@[window_index(cx, cy, cz)]
                                == section.block_at(cx, cy, cz),
                    decreases 17 - x,
                {
                    let kind = section_kind(section, &kinds, x, y, z);
                    cells.push(kind);
                    x += 1;
                }
                z += 1;
            }
            y += 1;
        }
        let w = BlockWindow::from_cells(cells);
        proof {
            assert forall|x: int, y: int, z: int| #[trigger] w.at(x, y, z) == section.block_at(x, y, z) by {
                if in_window(x, y, z) {
                } else {
                    assert(!in_section(x, y, z));
                }
            }
        }
        w
    }
}

/// The kinds that the names of a palette stand for, entry by entry.
pub fn decode_palette(palette: &Vec<String>) -> (kinds: Vec<BlockType>)
    ensures
        kinds@.len() == palette@.len(),
        forall|k: int| 0 <= k < kinds@.len() ==> kinds@[k] == block_from_name(palette@[k]@),
{
    let mut kinds: Vec<BlockType> = Vec::new();
    let mut i: usize = 0;
    while i < palette.len()
        invariant
            i <= palette.len(),
            kinds@.len() == i,
            forall|k: int| 0 <= k < i ==> kinds@[k] == block_from_name(palette@[k]@),
        decreases palette.len() - i,
    {
        kinds.push(BlockType::from_string(palette[i].as_str()));
        i += 1;
    }
    kinds
}

/// The kind at local `(x, y, z)` of `section`, read through its decoded
/// palette; `Air` outside the section.
fn section_kind(section: &ChunkSection, kinds: &Vec<BlockType>, x: i32, y: i32, z: i32) -> (b:
    BlockType)
    requires
        kinds@.len() == section.palette@.len(),
        forall|k: int| 0 <= k < kinds@.len() ==> kinds@[k] == block_from_name(section.palette@[k]@),
    ensures
        b == section.block_at(x as int, y as int, z as int),
{
    if x < 0 || x > 15 || y < 0 || y > 15 || z < 0 || z > 15 {
        return BlockType::Air;
    }
    let index: usize = ((y * 16 + z) * 16 + x) as usize;
    if index >= section.blocks.len() {
        return BlockType::Air;
    }
    let id: usize = section.blocks[index] as usize;
    if id >= kinds.len() {
        return BlockType::Air;
    }
    kinds[id]
}

} // verus!
