use vstd::prelude::*;
use crate::block::BlockType;

verus! {

/// The block kind that the texture file named `name` belongs to, if any.
pub open spec fn texture_block(name: Seq<char>) -> Option<BlockType> {
    if name == "dirt.jpg"@ {
        Some(BlockType::Dirt)
    } else if name == "grass.jpg"@ {
        Some(BlockType::Grass)
    } else if name == "rock.jpg"@ {
        Some(BlockType::Rock)
    } else if name == "water.jpg"@ {
        Some(BlockType::Water)
    } else {
        None
    }
}

/// The block kind that the texture file named `name` belongs to. A kind
/// without a texture of its own is drawn with the whole atlas.
pub fn filename_to_block_type(name: &str) -> (kind: Option<BlockType>)
    ensures
        kind == texture_block(name@),
{
    let owned: String = name.to_owned();
    if owned == "dirt.jpg".to_owned() {
        Some(BlockType::Dirt)
    } else if owned == "grass.jpg".to_owned() {
        Some(BlockType::Grass)
    } else if owned == "rock.jpg".to_owned() {
        Some(BlockType::Rock)
    } else if owned == "water.jpg".to_owned() {
        Some(BlockType::Water)
    } else {
        None
    }
}

} // verus!
