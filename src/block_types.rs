use vstd::prelude::*;

verus! {

broadcast use vstd::string::to_string_from_display_ensures_for_str;

/// The kinds of block a scene is built from.
#[derive(Clone, Copy, Debug, PartialEq, Eq, Structural)]
pub enum BlockType {
    Grass,
    Dirt,
    Stone,
    Cobble,
    WoodPlank,
    WoodLog,
    Leaves,
    DeepslateBricks,
    Glass,
    Metal,
    Sun,
}

/// The image each kind of block is painted with; metal and the sun are
/// plain colours.
pub open spec fn texture_path_of(b: BlockType) -> Option<Seq<char>> {
    match b {
        BlockType::Grass => Some("textures/grass_top.jpg"@),
        BlockType::Dirt => Some("textures/dirt.jpg"@),
        BlockType::Stone => Some("textures/stone.jpg"@),
        BlockType::Cobble => Some("textures/cobble.png"@),
        BlockType::WoodPlank => Some("textures/wood_oak.jpg"@),
        BlockType::WoodLog => Some("textures/wood_oak_log.jpg"@),
        BlockType::Leaves => Some("textures/leaves_oak.jpg"@),
        BlockType::DeepslateBricks => Some("textures/deepslate_bricks.jpg"@),
        BlockType::Glass => Some("textures/glass.png"@),
        BlockType::Metal => None,
        BlockType::Sun => None,
    }
}

impl BlockType {
    /// The path of the texture this kind of block is painted with, if any.
    pub fn texture(&self) -> (r: Option<String>)
        ensures
            match r {
                Some(s) => texture_path_of(*self) == Some(s@),
                None => texture_path_of(*self) is None,
            },
    {
        let p = match self {
            BlockType::Grass => "textures/grass_top.jpg",
            BlockType::Dirt => "textures/dirt.jpg",
            BlockType::Stone => "textures/stone.jpg",
            BlockType::Cobble => "textures/cobble.png",
            BlockType::WoodPlank => "textures/wood_oak.jpg",
            BlockType::WoodLog => "textures/wood_oak_log.jpg",
            BlockType::Leaves => "textures/leaves_oak.jpg",
            BlockType::DeepslateBricks => "textures/deepslate_bricks.jpg",
            BlockType::Glass => "textures/glass.png",
            BlockType::Metal => {
                return None;
            },
            BlockType::Sun => {
                return None;
            },
        };
        Some(p.to_string())
    }

    /// Whether a block of this kind carries its own light: only the sun does.
    pub fn is_emissive(&self) -> (r: bool)
        ensures
            r == (*self == BlockType::Sun),
    {
        match self {
            BlockType::Sun => true,
            _ => false,
        }
    }
}

} // verus!
