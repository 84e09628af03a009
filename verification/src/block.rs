use vstd::prelude::*;

verus! {

/// The kinds of block a cell can hold. `Air` is the empty cell.
#[derive(Copy, Clone, PartialEq, Eq, Hash, Debug, Structural)]
pub enum BlockType {
    Air,
    Grass,
    Dirt,
    Rock,
    Brick,
    Water,
    Sand,
}

/// The stable name under which a block kind is stored in a palette.
pub open spec fn block_name(b: BlockType) -> Seq<char> {
    match b {
        BlockType::Air => "minecraft:air"@,
        BlockType::Grass => "minecraft:grass"@,
        BlockType::Dirt => "minecraft:dirt"@,
        BlockType::Rock => "minecraft:rock"@,
        BlockType::Brick => "minecraft:brick"@,
        BlockType::Water => "minecraft:water"@,
        BlockType::Sand => "minecraft:sand"@,
    }
}

/// The block kind that a stored name stands for; a name that belongs to no
/// kind reads as `Air`.
pub open spec fn block_from_name(name: Seq<char>) -> BlockType {
    if name == "minecraft:grass"@ {
        BlockType::Grass
    } else if name == "minecraft:dirt"@ {
        BlockType::Dirt
    } else if name == "minecraft:rock"@ {
        BlockType::Rock
    } else if name == "minecraft:brick"@ {
        BlockType::Brick
    } else if name == "minecraft:water"@ {
        BlockType::Water
    } else if name == "minecraft:sand"@ {
        BlockType::Sand
    } else {
        BlockType::Air
    }
}

/// Whether `name` is the stored name of some block kind.
pub open spec fn is_block_name(name: Seq<char>) -> bool {
    name == block_name(block_from_name(name))
}

/// A small number for each kind, used to count kinds.
pub open spec fn block_code(b: BlockType) -> int {
    match b {
        BlockType::Air => 0,
        BlockType::Grass => 1,
        BlockType::Dirt => 2,
        BlockType::Rock => 3,
        BlockType::Brick => 4,
        BlockType::Water => 5,
        BlockType::Sand => 6,
    }
}

/// Reading back the name of a kind gives that kind: the seven names are
/// pairwise different.
pub proof fn lemma_name_round_trip(b: BlockType)
    ensures
        block_from_name(block_name(b)) == b,
        is_block_name(block_name(b)),
{
    reveal_strlit("minecraft:air");
    reveal_strlit("minecraft:grass");
    reveal_strlit("minecraft:dirt");
    reveal_strlit("minecraft:rock");
    reveal_strlit("minecraft:brick");
    reveal_strlit("minecraft:water");
    reveal_strlit("minecraft:sand");
    let n = block_name(b);
    match b {
        BlockType::Air => {
            assert(n.len() == 13);
        },
        BlockType::Grass => {
            assert(n.len() == 15 && n[10] == 'g');
        },
        BlockType::Dirt => {
            assert(n.len() == 14 && n[10] == 'd');
        },
        BlockType::Rock => {
            assert(n.len() == 14 && n[10] == 'r');
        },
        BlockType::Brick => {
            assert(n.len() == 15 && n[10] == 'b');
            assert("minecraft:grass"@[10] == 'g');
        },
        BlockType::Water => {
            assert(n.len() == 15 && n[10] == 'w');
            assert("minecraft:grass"@[10] == 'g');
            assert("minecraft:brick"@[10] == 'b');
        },
        BlockType::Sand => {
            assert(n.len() == 14 && n[10] == 's');
            assert("minecraft:dirt"@[10] == 'd');
            assert("minecraft:rock"@[10] == 'r');
        },
    }
}

impl BlockType {
    /// The kind stored under `name`; `Air` for a name of no kind.
    pub fn from_string(name: &str) -> (b: BlockType)
        ensures
            b == block_from_name(name@),
    {
        let owned: String = name.to_owned();
        if owned == "minecraft:grass".to_owned() {
            BlockType::Grass
        } else if owned == "minecraft:dirt".to_owned() {
            BlockType::Dirt
        } else if owned == "minecraft:rock".to_owned() {
            BlockType::Rock
        } else if owned == "minecraft:brick".to_owned() {
            BlockType::Brick
        } else if owned == "minecraft:water".to_owned() {
            BlockType::Water
        } else if owned == "minecraft:sand".to_owned() {
            BlockType::Sand
        } else {
            BlockType::Air
        }
    }

    /// The name under which this kind is stored.
    pub fn to_string(&self) -> (name: String)
        ensures
            name@ == block_name(*self),
    {
        match self {
            BlockType::Air => "minecraft:air".to_owned(),
            BlockType::Grass => "minecraft:grass".to_owned(),
            BlockType::Dirt => "minecraft:dirt".to_owned(),
            BlockType::Rock => "minecraft:rock".to_owned(),
            BlockType::Brick => "minecraft:brick".to_owned(),
            BlockType::Water => "minecraft:water".to_owned(),
            BlockType::Sand => "minecraft:sand".to_owned(),
        }
    }
}

impl Default for BlockType {
    fn default() -> (b: BlockType)
        ensures
            b == BlockType::Air,
    {
        BlockType::Air
    }
}

} // verus!
