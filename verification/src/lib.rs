//! Renders a grid of tiles into a raster image.
//!
//! Occupied tiles are walls: each is textured with a piece of a 64 by 48
//! pixel atlas, picked by the occupancy of its eight neighbours. Free tiles
//! are lit by point lights, each as far as its intensity reaches and as far
//! as the walls leave it in sight; where lights overlap they are blended one
//! over the other in the order in which they were added.
//!
//! All arithmetic is exact integer arithmetic. Positions and distances are
//! measured in output pixels, of which a tile has `8 * scale` along each
//! side; blend factors are held as exact fractions or exact falloffs, and a
//! blended channel is the exact value rounded down.
//!
//! The modules, from the leaves up:
//! - `roots`: integer square roots;
//! - `factor`: blend factors and how they mix two channel values;
//! - `color`: colours with and without alpha;
//! - `pixel_buffer`: byte buffers read as grids of pixels;
//! - `autotile`: from a neighbour mask to a piece of the atlas;
//! - `grid`: the occupancy grid, its neighbour masks, its text form;
//! - `sight`: positions and the sampled line of sight;
//! - `codec`: PNG files, by the `png` crate;
//! - `tile_map`: the map, its wall layer and its lights.

pub mod roots;
pub mod factor;
pub mod color;
pub mod pixel_buffer;
pub mod autotile;
pub mod grid;
pub mod sight;
pub mod codec;
pub mod tile_map;

pub use autotile::{piece, tex_coord, tile_origin, ATLAS_HEIGHT, ATLAS_WIDTH, TILE_SIZE};
pub use codec::Raster;
pub use color::{Color, Color3};
pub use factor::Factor;
pub use grid::{GridError, OccupancyGrid};
pub use pixel_buffer::{BufferError, ColorSpace, ColorTrait, PixelBuffer};
pub use roots::{div_ceil, isqrt, isqrt_ceil};
pub use sight::{Point, SAMPLES_PER_TILE};
pub use tile_map::{
    illuminate_all, picture_to_png, Light, MapError, TileMap, ATLAS_BYTES, TILE_PIXELS,
};
