//! The autotile resolver: which atlas piece a wall tile shows, chosen by the
//! occupancy of its eight neighbours.

use vstd::prelude::*;

verus! {

/// Width of the texture atlas in pixels.
pub const ATLAS_WIDTH: u32 = 64;

/// Height of the texture atlas in pixels.
pub const ATLAS_HEIGHT: u32 = 48;

/// Edge length of one atlas piece in pixels.
pub const TILE_SIZE: u32 = 8;

/// The atlas piece for each neighbour mask, as `row * 8 + column` in the
/// atlas's grid of 8x8-pixel pieces. The mask has one bit per neighbour:
/// 128 top-left, 64 top, 32 top-right, 16 left, 8 right, 4 bottom-left,
/// 2 bottom, 1 bottom-right.
pub const PIECE_OF_MASK: [u8; 256] = [
     7,  7,  6,  6,  7,  7,  6,  6, 24, 24, 23,  0, 24, 24, 23,  0,
    26, 26, 15, 15, 26, 26,  2,  2, 25, 25, 41, 42, 25, 25, 40,  1,
     7,  7,  6,  6,  7,  7,  6,  6, 24, 24, 23,  0, 24, 24, 23,  0,
    26, 26, 15, 15, 26, 26,  2,  2, 25, 25, 41, 42, 25, 25, 40,  1,
    22, 22, 14, 14, 22, 22, 14, 14, 31, 31, 38, 46, 31, 31, 38, 46,
    39, 39, 37, 37, 39, 39, 45, 45, 33, 33, 12, 36, 33, 33, 35, 20,
    22, 22, 14, 14, 22, 22, 14, 14, 16, 16, 30,  8, 16, 16, 30,  8,
    39, 39, 37, 37, 39, 39, 45, 45, 34, 34, 28, 13, 34, 34, 43, 21,
     7,  7,  6,  6,  9,  9,  6,  6, 24, 24, 23,  0, 24, 24, 23,  0,
    26, 26, 15, 15, 26, 26,  2,  2, 25, 25, 41, 42, 25, 25, 40,  1,
     9,  9,  6,  6,  9,  9,  6,  6, 24, 24, 23,  0, 24, 24, 23,  0,
    26, 26, 15, 15, 26, 26,  2,  2, 25, 25, 41, 42, 25, 25, 40,  1,
    22, 22, 14, 14, 22, 22, 14, 14, 31, 31, 38, 46, 31, 31, 38, 46,
    18, 18, 29, 29, 18, 18, 10, 10, 32, 32, 27, 44, 32, 32, 11, 19,
    22, 22, 14, 14, 22, 22, 14, 14, 16, 16, 30,  8, 16, 16, 30,  8,
    18, 18, 29, 29, 18, 18, 10, 10, 17, 17,  4,  5, 17, 17,  3,  9,
];

/// The atlas piece (`row * 8 + column`) shown for a neighbour mask.
pub open spec fn piece_of(mask: u8) -> int {
    PIECE_OF_MASK[mask as int] as int
}

/// The top-left pixel, in the atlas, of the piece shown for a neighbour mask.
pub open spec fn atlas_origin(mask: u8) -> (int, int) {
    ((piece_of(mask) % 8) * 8, (piece_of(mask) / 8) * 8)
}

/// The atlas pixel to sample for the destination pixel `(x, y)` of a tile
/// whose neighbour mask is `mask`: the piece's origin, moved by the pixel's
/// position within its own tile.
pub open spec fn atlas_sample(mask: u8, x: int, y: int) -> (int, int) {
    (atlas_origin(mask).0 + x % 8, atlas_origin(mask).1 + y % 8)
}

/// Whether the neighbour with bit weight `bit` (a power of two) is set in `mask`.
pub open spec fn has_neighbour(mask: u8, bit: int) -> bool {
    (mask as int / bit) % 2 == 1
}

/// Whether one of the four edge neighbours (top, left, right, bottom) is set.
pub open spec fn has_edge_neighbour(mask: u8) -> bool {
    has_neighbour(mask, 64) || has_neighbour(mask, 16) || has_neighbour(mask, 8)
        || has_neighbour(mask, 2)
}

/// `mask` without the corner neighbours that do not touch two occupied edge
/// neighbours: a corner stays only where both edges next to it are set.
pub open spec fn significant_neighbours(mask: u8) -> int {
    let top = has_neighbour(mask, 64);
    let left = has_neighbour(mask, 16);
    let right = has_neighbour(mask, 8);
    let bottom = has_neighbour(mask, 2);
    (if has_neighbour(mask, 128) && top && left { 128int } else { 0 })
    + (if top { 64int } else { 0 })
    + (if has_neighbour(mask, 32) && top && right { 32int } else { 0 })
    + (if left { 16int } else { 0 })
    + (if right { 8int } else { 0 })
    + (if has_neighbour(mask, 4) && bottom && left { 4int } else { 0 })
    + (if bottom { 2int } else { 0 })
    + (if has_neighbour(mask, 1) && bottom && right { 1int } else { 0 })
}

/// Looks up the atlas piece for a neighbour mask.
pub fn piece(mask: u8) -> (p: u8)
    ensures
        p == piece_of(mask),
        p < 48,
{
    PIECE_OF_MASK[mask as usize]
}

/// Every mask has a piece inside the atlas's 8x6 grid of pieces.
pub proof fn lemma_piece_in_atlas(mask: u8)
    ensures
        0 <= piece_of(mask) < 48,
        0 <= atlas_origin(mask).0 <= ATLAS_WIDTH - TILE_SIZE,
        0 <= atlas_origin(mask).1 <= ATLAS_HEIGHT - TILE_SIZE,
        atlas_origin(mask).0 % 8 == 0,
        atlas_origin(mask).1 % 8 == 0,
{
}

/// Where a tile has an occupied edge neighbour, a corner neighbour changes
/// its piece only if both edge neighbours next to that corner are occupied.
pub proof fn lemma_corners_need_edges(mask: u8)
    requires
        has_edge_neighbour(mask),
    ensures
        0 <= significant_neighbours(mask) < 256,
        piece_of(mask) == piece_of(significant_neighbours(mask) as u8),
{
}

/// A tile without an occupied edge neighbour shows the solid piece, but for
/// one family of corner patterns: with the top-left corner and one of the
/// top-right and bottom-left corners occupied it shows the enclosed piece.
pub proof fn lemma_no_edge_neighbour(mask: u8)
    requires
        !has_edge_neighbour(mask),
    ensures
        piece_of(mask) == if has_neighbour(mask, 128) && (has_neighbour(mask, 32)
            || has_neighbour(mask, 4)) {
            9int
        } else {
            7int
        },
{
}

/// The top-left atlas pixel of the piece for a neighbour mask.
pub fn tile_origin(mask: u8) -> (origin: (u32, u32))
    ensures
        origin.0 == atlas_origin(mask).0,
        origin.1 == atlas_origin(mask).1,
        origin.0 <= ATLAS_WIDTH - TILE_SIZE,
        origin.1 <= ATLAS_HEIGHT - TILE_SIZE,
        origin.0 % 8 == 0,
        origin.1 % 8 == 0,
{
    let p: u32 = piece(mask) as u32;
    ((p % 8) * 8, (p / 8) * 8)
}

/// The atlas pixel to sample for the destination pixel `(x, y)`, counted in
/// unscaled pixels, of a tile whose neighbour mask is `mask`.
pub fn tex_coord(mask: u8, x: u64, y: u64) -> (at: (u32, u32))
    ensures
        at.0 == atlas_sample(mask, x as int, y as int).0,
        at.1 == atlas_sample(mask, x as int, y as int).1,
        at.0 < ATLAS_WIDTH,
        at.1 < ATLAS_HEIGHT,
{
    let origin = tile_origin(mask);
    (origin.0 + (x % 8) as u32, origin.1 + (y % 8) as u32)
}

} // verus!
