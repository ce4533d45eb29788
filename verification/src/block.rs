//! The closed set of voxel block types and their per-face texture indices.

use vstd::prelude::*;

verus! {

/// A voxel block type. `AIR` is the only value that means "no geometry,
/// fully transparent to visibility checks".
#[derive(Copy, Clone, PartialEq, Eq, Structural, Debug)]
pub enum Block {
    AIR,
    DIRT,
    GRASS,
    STONE,
    LOG,
    PLANK,
    LEAVES,
}

/// The texture index a block shows on a given face.
///
/// Faces are numbered front, back, left, right, bottom, top: sides are
/// `0..4`, the bottom is `4` and the top is `5`.
pub open spec fn spec_get_uv(b: Block, side: int) -> u8 {
    match b {
        Block::AIR => 0,
        Block::GRASS => if side < 4 {
            0
        } else if side == 5 {
            1
        } else {
            2
        },
        Block::DIRT => 2,
        Block::STONE => 3,
        Block::LOG => if side < 4 {
            5
        } else {
            4
        },
        Block::PLANK => 6,
        Block::LEAVES => 7,
    }
}

impl Block {
    /// The texture index this block shows on face `side` (see `spec_get_uv`).
    pub fn get_uv(&self, side: usize) -> (r: u8)
        ensures
            r == spec_get_uv(*self, side as int),
            r <= 7,
    {
        match self {
            Block::AIR => 0,
            Block::GRASS => {
                if side < 4 {
                    0
                } else if side == 5 {
                    1
                } else {
                    2
                }
            },
            Block::DIRT => 2,
            Block::STONE => 3,
            Block::LOG => {
                if side < 4 {
                    5
                } else {
                    4
                }
            },
            Block::PLANK => 6,
            Block::LEAVES => 7,
        }
    }
}

} // verus!
