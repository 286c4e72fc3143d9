//! The tile map and its renderer: walls textured from the atlas, floors lit
//! by point lights as far as they are in sight.

use vstd::prelude::*;
use crate::autotile::{atlas_origin, atlas_sample, tex_coord, tile_origin, ATLAS_HEIGHT, ATLAS_WIDTH};
use crate::codec::{decode_png, decoded_png, encode_png, encoded_png, Raster};
use crate::color::{Color, Color3};
use crate::factor::Factor;
use crate::grid::{marked, marks_fit, OccupancyGrid};
use crate::pixel_buffer::{
    lemma_index_in_grid, lemma_overlaid_transparent, lemma_position_in_grid, overlaid, rgba_at,
    rgba_in, BufferError, PixelBuffer,
};
use crate::roots::{
    ceil_div, ceil_sqrt, lemma_ceil_div_least, lemma_ceil_div_reaches, lemma_ceil_sqrt_least,
    lemma_ceil_sqrt_reaches,
};
use crate::sight::{
    free_between, in_box, in_wall, lemma_sight_in_free_box, line_of_sight, tile_coord, Point,
};

verus! {

/// The pixels along one edge of a tile, before scaling.
pub const TILE_PIXELS: u64 = 8;

/// The bytes of a texture atlas: 64 by 48 pixels of four bytes.
pub const ATLAS_BYTES: usize = 12288;

/// Why a map operation was refused.
#[derive(Debug, Clone, Copy, PartialEq, Eq, Structural)]
pub enum MapError {
    /// A width, a height or a scale of zero.
    ZeroDimension,
    /// The map has more tiles or pixels than can be addressed, or is wider
    /// or higher than 2,147,483,647 pixels.
    TooLarge,
    /// The texture file could not be decoded.
    BadTexture,
    /// The texture atlas is not 64 by 48 pixels of 8-bit RGBA.
    AtlasMismatch,
    /// A tile marked outside the map.
    OutOfGrid,
    /// A layer that is not of the picture's size.
    LayerMismatch,
    /// The picture could not be encoded.
    Encoding,
}

/// A point light. The position and the intensity are measured in output
/// pixels; the intensity is the distance at which the light has faded out.
#[derive(Debug, Clone, Copy, PartialEq, Eq, Structural)]
pub struct Light {
    pub position: Point,
    pub color: Color,
    pub intensity: u32,
}

/// A map of tiles with its lights, its texture atlas and the picture it is
/// rendered into. Each tile takes `8 * sim_scale` pixels along each side.
pub struct TileMap {
    pub height: u64,
    pub width: u64,
    pub sim_scale: u64,
    pub lights: Vec<Light>,
    pub squares: OccupancyGrid,
    pub pixel_buffer: PixelBuffer<Color3>,
    pub texture: Vec<u8>,
}

/// Which error the size of a map gives, if any.
pub open spec fn size_error(height: u64, width: u64, sim_scale: u64) -> Option<MapError> {
    if height == 0 || width == 0 || sim_scale == 0 {
        Some(MapError::ZeroDimension)
    } else if width * 8 * sim_scale > i32::MAX || height * 8 * sim_scale > i32::MAX || (width * 8
        * sim_scale) * (height * 8 * sim_scale) * 3 > usize::MAX {
        Some(MapError::TooLarge)
    } else {
        None
    }
}

/// Whether a decoded image has the shape of a texture atlas.
pub open spec fn atlas_shaped(width: u32, height: u32, samples: u8, bits: u8, len: nat) -> bool {
    width == ATLAS_WIDTH && height == ATLAS_HEIGHT && samples == 4 && bits == 8 && len
        == ATLAS_BYTES
}

impl TileMap {
    /// The edge length of a tile in output pixels.
    pub open spec fn unit(&self) -> int {
        8 * self.sim_scale
    }

    /// The width of the picture in pixels.
    pub open spec fn pixel_width(&self) -> int {
        self.width * 8 * self.sim_scale
    }

    /// The height of the picture in pixels.
    pub open spec fn pixel_height(&self) -> int {
        self.height * 8 * self.sim_scale
    }

    /// A map is well formed when its parts agree on its size, the atlas has
    /// its 12288 bytes, and no side of the picture exceeds 2,147,483,647
    /// pixels.
    pub open spec fn wf(&self) -> bool {
        &&& self.sim_scale > 0
        &&& self.squares.wf()
        &&& self.squares.width() == self.width
        &&& self.squares.height() == self.height
        &&& self.pixel_buffer.wf()
        &&& self.pixel_buffer.width() == self.pixel_width()
        &&& self.pixel_buffer.height() == self.pixel_height()
        &&& self.pixel_width() <= i32::MAX
        &&& self.pixel_height() <= i32::MAX
        &&& self.texture@.len() == ATLAS_BYTES
    }

    /// Whether the map is well formed. A map made by this module is, until
    /// its parts are exchanged or resized from outside.
    pub fn is_well_formed(&self) -> (ok: bool)
        ensures
            ok == self.wf(),
    {
        if self.sim_scale == 0 || self.width == 0 || self.height == 0 {
            return false;
        }
        proof {
            lemma_sides(self.height as int, self.width as int, self.sim_scale as int);
        }
        if self.sim_scale > i32::MAX as u64 / 8 || self.width > i32::MAX as u64 || self.height
            > i32::MAX as u64 {
            return false;
        }
        let unit = self.sim_scale * TILE_PIXELS;
        proof {
            crate::roots::lemma_product_bound(
                self.width as nat,
                unit as nat,
                0x7fff_ffff,
                0x7fff_ffff,
            );
            crate::roots::lemma_product_bound(
                self.height as nat,
                unit as nat,
                0x7fff_ffff,
                0x7fff_ffff,
            );
        }
        let wide = self.width * unit;
        let tall = self.height * unit;
        self.squares.is_well_formed() && self.squares.width() == self.width && self.squares.height()
            == self.height && self.pixel_buffer.is_well_formed() && self.pixel_buffer.width()
            == wide && self.pixel_buffer.height() == tall && wide <= i32::MAX as u64 && tall
            <= i32::MAX as u64 && self.texture.len() == ATLAS_BYTES
    }

    /// Whether `made` is a fresh map of the given size over the given atlas:
    /// no lights, no walls, and a black picture whose iteration stands at the
    /// first pixel.
    pub open spec fn fresh(
        made: TileMap,
        height: u64,
        width: u64,
        sim_scale: u64,
        atlas: Seq<u8>,
    ) -> bool {
        &&& made.wf()
        &&& made.height == height
        &&& made.width == width
        &&& made.sim_scale == sim_scale
        &&& made.texture@ == atlas
        &&& made.lights@.len() == 0
        &&& made.pixel_buffer.cursor() == 0
        &&& forall|col: int, row: int| !#[trigger] made.squares.occupied(col, row)
        &&& forall|i: int|
            0 <= i < made.pixel_buffer.pixel_count() ==> #[trigger] made.pixel_buffer.pixel(i)
                == (Color3 { r: 0, g: 0, b: 0 })
    }

    /// A fresh map over an atlas given as 64 by 48 pixels of RGBA bytes,
    /// row by row.
    pub fn with_atlas(height: u64, width: u64, sim_scale: u64, atlas: Vec<u8>) -> (made: Result<
        TileMap,
        MapError,
    >)
        ensures
            made is Ok <==> atlas@.len() == ATLAS_BYTES && size_error(height, width, sim_scale)
                is None,
            made matches Err(e) ==> e == if atlas@.len() != ATLAS_BYTES {
                MapError::AtlasMismatch
            } else {
                size_error(height, width, sim_scale)->0
            },
            made matches Ok(map) ==> Self::fresh(map, height, width, sim_scale, atlas@),
    {
        if atlas.len() != ATLAS_BYTES {
            return Err(MapError::AtlasMismatch);
        }
        if height == 0 || width == 0 || sim_scale == 0 {
            return Err(MapError::ZeroDimension);
        }
        let unit = match sim_scale.checked_mul(TILE_PIXELS) {
            Some(unit) => unit,
            None => {
                proof {
                    lemma_sides(height as int, width as int, sim_scale as int);
                }
                return Err(MapError::TooLarge);
            },
        };
        proof {
            lemma_sides(height as int, width as int, sim_scale as int);
        }
        let wide = match width.checked_mul(unit) {
            Some(wide) => wide,
            None => {
                return Err(MapError::TooLarge);
            },
        };
        let tall = match height.checked_mul(unit) {
            Some(tall) => tall,
            None => {
                return Err(MapError::TooLarge);
            },
        };
        if wide > i32::MAX as u64 || tall > i32::MAX as u64 {
            return Err(MapError::TooLarge);
        }
        let pixel_buffer = match PixelBuffer::<Color3>::new(wide, tall) {
            Ok(buffer) => buffer,
            Err(_) => {
                return Err(MapError::TooLarge);
            },
        };
        let squares = match OccupancyGrid::new(width, height) {
            Ok(grid) => grid,
            Err(_) => {
                return Err(MapError::TooLarge);
            },
        };
        Ok(TileMap { height, width, sim_scale, lights: Vec::new(), squares, pixel_buffer, texture: atlas })
    }

    /// A fresh map over a decoded image, which must have the shape of an
    /// atlas: 64 by 48 pixels of 8-bit RGBA.
    pub fn from_raster(height: u64, width: u64, sim_scale: u64, raster: Raster) -> (made: Result<
        TileMap,
        MapError,
    >)
        ensures
            made is Ok <==> atlas_shaped(
                raster.width,
                raster.height,
                raster.samples,
                raster.bits,
                raster.data@.len(),
            ) && size_error(height, width, sim_scale) is None,
            made matches Err(e) ==> e == if !atlas_shaped(
                raster.width,
                raster.height,
                raster.samples,
                raster.bits,
                raster.data@.len(),
            ) {
                MapError::AtlasMismatch
            } else {
                size_error(height, width, sim_scale)->0
            },
            made matches Ok(map) ==> Self::fresh(map, height, width, sim_scale, raster.data@),
    {
        if raster.width != ATLAS_WIDTH || raster.height != ATLAS_HEIGHT || raster.samples != 4
            || raster.bits != 8 {
            return Err(MapError::AtlasMismatch);
        }
        Self::with_atlas(height, width, sim_scale, raster.data)
    }

    /// A fresh map over the atlas in a PNG file, given as the bytes of the
    /// file. Fails with `BadTexture` where the file cannot be decoded, and
    /// as `from_raster` does on what was decoded.
    pub fn new(height: u64, width: u64, sim_scale: u64, texture_file: &[u8]) -> (made: Result<
        TileMap,
        MapError,
    >)
        ensures
            decoded_png(texture_file@) is None ==> made matches Err(MapError::BadTexture),
            decoded_png(texture_file@) matches Some((atlas_width, atlas_height, samples, bits, data))
                ==> {
                &&& made is Ok <==> atlas_shaped(atlas_width, atlas_height, samples, bits, data.len())
                    && size_error(height, width, sim_scale) is None
                &&& made matches Err(e) ==> e == if !atlas_shaped(
                    atlas_width,
                    atlas_height,
                    samples,
                    bits,
                    data.len(),
                ) {
                    MapError::AtlasMismatch
                } else {
                    size_error(height, width, sim_scale)->0
                }
                &&& made matches Ok(map) ==> Self::fresh(map, height, width, sim_scale, data)
            },
    {
        match decode_png(texture_file) {
            Ok(raster) => Self::from_raster(height, width, sim_scale, raster),
            Err(_) => Err(MapError::BadTexture),
        }
    }

    /// Adds a light behind the lights already there.
    pub fn add_light(&mut self, light: Light)
        ensures
            final(self).lights@ == old(self).lights@.push(light),
            final(self).height == old(self).height,
            final(self).width == old(self).width,
            final(self).sim_scale == old(self).sim_scale,
            final(self).squares == old(self).squares,
            final(self).pixel_buffer == old(self).pixel_buffer,
            final(self).texture == old(self).texture,
    {
        self.lights.push(light);
    }

    /// Marks as walls the tiles that `text` marks with a `#`: one line for
    /// each row of tiles, one character for each tile. Refuses with
    /// `OutOfGrid`, changing nothing, a text with a `#` outside the map.
    pub fn squares_from_text(&mut self, text: &str) -> (done: Result<(), MapError>)
        requires
            old(self).wf(),
        ensures
            final(self).wf(),
            final(self).height == old(self).height,
            final(self).width == old(self).width,
            final(self).sim_scale == old(self).sim_scale,
            final(self).lights == old(self).lights,
            final(self).pixel_buffer == old(self).pixel_buffer,
            final(self).texture == old(self).texture,
            done == if marks_fit(text@, old(self).width as int, old(self).height as int) {
                Ok::<(), MapError>(())
            } else {
                Err::<(), MapError>(MapError::OutOfGrid)
            },
            done is Err ==> final(self).squares@ == old(self).squares@,
            done is Ok ==> forall|col: int, row: int| #[trigger]
                final(self).squares.occupied(col, row) == (old(self).squares.occupied(col, row)
                    || marked(text@, col, row)),
    {
        match self.squares.mark_from_text(text) {
            Ok(()) => Ok(()),
            Err(_) => Err(MapError::OutOfGrid),
        }
    }
}

/// The offset of a pixel coordinate within its tile, in pixels before
/// scaling; zero for a coordinate left of or above the map.
pub open spec fn root_coord(coord: int, sim_scale: int) -> int {
    if coord < 0 {
        0
    } else {
        (coord / sim_scale) % 8
    }
}

/// Whether the first `n` pixels of `bytes` are those of the wall layer of
/// `map`.
pub open spec fn painted(bytes: Seq<u8>, map: &TileMap, n: int) -> bool {
    forall|i: int| 0 <= i < n ==> #[trigger] rgba_at(bytes, i) == map.wall_pixel_no(i)
}

impl TileMap {
    /// The colour of the wall layer at the pixel `(x, y)`: in a wall tile,
    /// the atlas pixel that the autotile resolver picks for the tile's
    /// neighbour mask and the pixel's place within the tile; elsewhere,
    /// transparent black.
    pub open spec fn wall_pixel(&self, x: int, y: int) -> Color {
        let col = x / self.unit();
        let row = y / self.unit();
        if self.squares.occupied(col, row) {
            let mask = self.squares.mask_of(col, row) as u8;
            let at = atlas_sample(mask, x / (self.sim_scale as int), y / (self.sim_scale as int));
            rgba_in(self.texture@, ATLAS_WIDTH as int, at.0, at.1)
        } else {
            Color { r: 0, g: 0, b: 0, a: 0 }
        }
    }

    /// The colour of the wall layer at the pixel with the running number `i`.
    pub open spec fn wall_pixel_no(&self, i: int) -> Color {
        self.wall_pixel(i % self.pixel_width(), i / self.pixel_width())
    }

    /// The sizes of a well-formed map fit the machine: a tile is at most
    /// 2,147,483,647 pixels wide, and the picture has a positive number of
    /// pixels, three bytes each.
    pub proof fn lemma_sizes(&self)
        requires
            self.wf(),
        ensures
            0 < self.unit() <= i32::MAX,
            self.unit() == self.sim_scale * 8,
            self.width > 0,
            self.height > 0,
            self.pixel_width() == self.width * self.unit(),
            self.pixel_height() == self.height * self.unit(),
            0 < self.pixel_width() <= i32::MAX,
            0 < self.pixel_height() <= i32::MAX,
            self.pixel_buffer.pixel_count() == self.pixel_width() * self.pixel_height(),
            self.pixel_buffer@.len() == 3 * (self.pixel_width() * self.pixel_height()),
            3 * (self.pixel_width() * self.pixel_height()) <= usize::MAX,
    {
        lemma_sides(self.height as int, self.width as int, self.sim_scale as int);
        self.pixel_buffer.lemma_layout();
        assert(self.width * 8 * self.sim_scale == self.width * (8 * self.sim_scale))
            by (nonlinear_arith);
        assert(self.height * 8 * self.sim_scale == self.height * (8 * self.sim_scale))
            by (nonlinear_arith);
    }

    /// The edge length of a tile in output pixels.
    pub fn tile_edge(&self) -> (unit: u64)
        requires
            self.wf(),
        ensures
            unit == self.unit(),
            0 < unit <= i32::MAX,
    {
        proof {
            self.lemma_sizes();
        }
        self.sim_scale * TILE_PIXELS
    }

    /// Whether the position `point` lies in a wall tile.
    pub fn is_within_square(&self, point: &Point) -> (inside: bool)
        requires
            self.wf(),
        ensures
            inside == in_wall(&self.squares, self.unit(), *point),
    {
        crate::sight::is_within_square(&self.squares, self.tile_edge(), *point)
    }

    /// The place of the position `point` within its tile, in pixels before
    /// scaling: each coordinate in `0..8`.
    pub fn get_root_square(&self, point: &Point) -> (root: Point)
        requires
            self.wf(),
        ensures
            root.x == root_coord(point.x as int, self.sim_scale as int),
            root.y == root_coord(point.y as int, self.sim_scale as int),
            0 <= root.x < 8,
            0 <= root.y < 8,
    {
        let x: i32 = if point.x < 0 {
            0
        } else {
            ((point.x as u64 / self.sim_scale) % 8) as i32
        };
        let y: i32 = if point.y < 0 {
            0
        } else {
            ((point.y as u64 / self.sim_scale) % 8) as i32
        };
        Point { x, y }
    }

    /// Whether `b` is in sight of `a`.
    pub fn point_has_los(&self, a: &Point, b: &Point) -> (clear: bool)
        requires
            self.wf(),
        ensures
            clear == line_of_sight(&self.squares, self.unit(), *a, *b),
    {
        crate::sight::point_has_los(&self.squares, self.tile_edge(), *a, *b)
    }

    /// The neighbour mask of the tile in which the position `point` lies.
    pub fn get_surrounding_square_bitmap(&self, point: &Point) -> (mask: u8)
        requires
            self.wf(),
        ensures
            mask == self.squares.mask_of(
                tile_coord(point.x as int, self.unit()),
                tile_coord(point.y as int, self.unit()),
            ),
    {
        let unit = self.tile_edge();
        let col: u64 = if point.x < 0 {
            0
        } else {
            point.x as u64 / unit
        };
        let row: u64 = if point.y < 0 {
            0
        } else {
            point.y as u64 / unit
        };
        self.squares.neighbour_mask(col, row)
    }

    /// The atlas pixel for the position `point` in a wall tile whose
    /// neighbour mask is `bitmap`: the origin of the tile's piece, moved by
    /// the place of the position within its tile.
    pub fn get_tex_cord(&self, point: &Point, bitmap: u8) -> (at: (u32, u32))
        requires
            self.wf(),
        ensures
            at.0 == atlas_origin(bitmap).0 + root_coord(point.x as int, self.sim_scale as int),
            at.1 == atlas_origin(bitmap).1 + root_coord(point.y as int, self.sim_scale as int),
            at.0 < ATLAS_WIDTH,
            at.1 < ATLAS_HEIGHT,
    {
        let origin = tile_origin(bitmap);
        let root = self.get_root_square(point);
        (origin.0 + root.x as u32, origin.1 + root.y as u32)
    }

    /// A layer of the size of the picture, transparent black throughout.
    pub fn create_pixel_layer(&self) -> (layer: PixelBuffer<Color>)
        requires
            self.wf(),
        ensures
            layer.wf(),
            layer.width() == self.pixel_width(),
            layer.height() == self.pixel_height(),
            layer.cursor() == 0,
            forall|i: int|
                0 <= i < layer.pixel_count() ==> #[trigger] layer.pixel(i) == (Color {
                    r: 0,
                    g: 0,
                    b: 0,
                    a: 0,
                }),
    {
        proof {
            self.lemma_sizes();
        }
        let count: usize = self.pixel_buffer.buffer().len() / 3;
        let mut bytes: Vec<u8> = Vec::new();
        let mut i: usize = 0;
        while i < count
            invariant
                i <= count,
                bytes@.len() == 4 * i,
                forall|k: int| 0 <= k < bytes@.len() ==> #[trigger] bytes@[k] == 0u8,
            decreases count - i,
        {
            bytes.push(0);
            bytes.push(0);
            bytes.push(0);
            bytes.push(0);
            i = i + 1;
        }
        PixelBuffer::<Color>::assemble(bytes, self.pixel_buffer.width(), self.pixel_buffer.height())
    }
}

impl Light {
    /// Whether the light reaches the position `p`: `p` is nearer than the
    /// light's intensity and in sight of the light.
    pub open spec fn reaches(self, grid: &OccupancyGrid, unit: int, p: Point) -> bool {
        self.position.dist_sq(p) < self.intensity * self.intensity && line_of_sight(
            grid,
            unit,
            self.position,
            p,
        )
    }

    /// The colour `seen` at the position `p` with this light added: where
    /// the light reaches `p`, its colour blended over `seen` with the factor
    /// `1 - distance / intensity`; elsewhere `seen`.
    pub open spec fn shine(self, grid: &OccupancyGrid, unit: int, p: Point, seen: Color3) -> Color3 {
        if self.reaches(grid, unit, p) {
            self.color.rgb().blended(
                seen,
                Factor::Falloff {
                    dist_sq: self.position.dist_sq(p) as u64,
                    reach: self.intensity,
                },
            )
        } else {
            seen
        }
    }

    /// Adds this light to the colour `seen` at the position `p`.
    pub fn illuminate(&self, grid: &OccupancyGrid, unit: u64, p: Point, seen: Color3) -> (out:
        Color3)
        requires
            grid.wf(),
            unit > 0,
        ensures
            out == self.shine(grid, unit as int, p, seen),
    {
        let dist_sq = self.position.distance_squared(&p);
        proof {
            crate::roots::lemma_product_bound(
                self.intensity as nat,
                self.intensity as nat,
                0xffff_ffff,
                0xffff_ffff,
            );
        }
        let reach_sq: u128 = self.intensity as u128 * self.intensity as u128;
        if dist_sq < reach_sq && crate::sight::point_has_los(grid, unit, self.position, p) {
            let own = Color3 { r: self.color.r, g: self.color.g, b: self.color.b };
            own.blend(seen, Factor::Falloff { dist_sq: dist_sq as u64, reach: self.intensity })
        } else {
            seen
        }
    }
}

/// The colour `seen` at the position `p` with the first `n` of the lights
/// added, one after the other: each light is blended over what the lights
/// before it left.
pub open spec fn lit(
    grid: &OccupancyGrid,
    unit: int,
    lights: Seq<Light>,
    n: int,
    p: Point,
    seen: Color3,
) -> Color3
    decreases n,
{
    if n <= 0 {
        seen
    } else {
        lights[n - 1].shine(grid, unit, p, lit(grid, unit, lights, n - 1, p, seen))
    }
}

/// Adds the lights, one after the other, to the colour `seen` at the
/// position `p`.
pub fn illuminate_all(grid: &OccupancyGrid, unit: u64, lights: &Vec<Light>, p: Point, seen: Color3) -> (out:
    Color3)
    requires
        grid.wf(),
        unit > 0,
    ensures
        out == lit(grid, unit as int, lights@, lights@.len() as int, p, seen),
{
    let mut out = seen;
    let mut k: usize = 0;
    while k < lights.len()
        invariant
            grid.wf(),
            unit > 0,
            k <= lights.len(),
            out == lit(grid, unit as int, lights@, k as int, p, seen),
        decreases lights.len() - k,
    {
        out = lights[k].illuminate(grid, unit, p, out);
        k = k + 1;
    }
    out
}

/// Whether the first `n` pixels of `bytes` are rendered, and the others
/// are still as `merged` has them.
pub open spec fn rendered_upto(
    now: &PixelBuffer<Color3>,
    merged: &PixelBuffer<Color3>,
    map: &TileMap,
    n: int,
) -> bool {
    forall|i: int|
        0 <= i < now.pixel_count() ==> #[trigger] now.pixel(i) == if i < n {
            map.lit_pixel_no(merged.pixel(i), i)
        } else {
            merged.pixel(i)
        }
}

impl TileMap {
    /// The colour `base` of the pixel `(x, y)` after lighting: unchanged in
    /// a wall tile, with every light added elsewhere.
    pub open spec fn lit_pixel(&self, base: Color3, x: int, y: int) -> Color3 {
        let p = Point { x: x as i32, y: y as i32 };
        if in_wall(&self.squares, self.unit(), p) {
            base
        } else {
            lit(&self.squares, self.unit(), self.lights@, self.lights@.len() as int, p, base)
        }
    }

    /// The colour `base` of the pixel with the running number `i` after
    /// lighting.
    pub open spec fn lit_pixel_no(&self, base: Color3, i: int) -> Color3 {
        self.lit_pixel(base, i % self.pixel_width(), i / self.pixel_width())
    }

    /// The colour of the pixel `(x, y)` once rendered: the wall layer laid
    /// over the picture as it is, then lit.
    pub open spec fn rendered(&self, x: int, y: int) -> Color3 {
        self.lit_pixel(overlaid(self.pixel_buffer.pixel_at(x, y), self.wall_pixel(x, y)), x, y)
    }

    /// The wall layer: for every pixel of a wall tile the atlas pixel that
    /// the autotile resolver picks, transparent black elsewhere.
    pub fn color_walls(&self) -> (layer: PixelBuffer<Color>)
        requires
            self.wf(),
        ensures
            layer.wf(),
            layer.width() == self.pixel_width(),
            layer.height() == self.pixel_height(),
            layer.cursor() == 0,
            forall|i: int|
                0 <= i < layer.pixel_count() ==> #[trigger] layer.pixel(i) == self.wall_pixel_no(i),
            forall|x: int, y: int|
                0 <= x < self.pixel_width() && 0 <= y < self.pixel_height()
                    ==> #[trigger] layer.pixel_at(x, y) == self.wall_pixel(x, y),
    {
        proof {
            self.lemma_sizes();
        }
        let unit = self.tile_edge();
        let wide = self.pixel_buffer.width();
        let tall = self.pixel_buffer.height();
        let count: usize = self.pixel_buffer.buffer().len() / 3;
        let mut bytes: Vec<u8> = Vec::new();
        let mut i: usize = 0;
        while i < count
            invariant
                self.wf(),
                unit == self.unit(),
                wide == self.pixel_width(),
                tall == self.pixel_height(),
                count == wide * tall,
                wide > 0,
                i <= count,
                bytes@.len() == 4 * i,
                painted(bytes@, self, i as int),
            decreases count - i,
        {
            proof {
                lemma_position_in_grid(i as int, wide as int, tall as int);
            }
            let x: u64 = i as u64 % wide;
            let y: u64 = i as u64 / wide;
            let col = x / unit;
            let row = y / unit;
            let ghost before = bytes@;
            if self.squares.is_occupied(col, row) {
                let mask = self.squares.neighbour_mask(col, row);
                let at = tex_coord(mask, x / self.sim_scale, y / self.sim_scale);
                let start: usize = ((at.1 * ATLAS_WIDTH + at.0) * 4) as usize;
                bytes.push(self.texture[start]);
                bytes.push(self.texture[start + 1]);
                bytes.push(self.texture[start + 2]);
                bytes.push(self.texture[start + 3]);
            } else {
                bytes.push(0);
                bytes.push(0);
                bytes.push(0);
                bytes.push(0);
            }
            proof {
                assert(rgba_at(bytes@, i as int) == self.wall_pixel_no(i as int));
                assert forall|k: int| 0 <= k < i + 1 implies #[trigger] rgba_at(bytes@, k)
                    == self.wall_pixel_no(k) by {
                    if k < i {
                        assert(rgba_at(bytes@, k) == rgba_at(before, k));
                    }
                }
            }
            i = i + 1;
        }
        let layer = PixelBuffer::<Color>::assemble(bytes, wide, tall);
        proof {
            layer.lemma_layout();
            assert forall|k: int| 0 <= k < layer.pixel_count() implies #[trigger] layer.pixel(k)
                == self.wall_pixel_no(k) by {
                assert(rgba_at(layer@, k) == self.wall_pixel_no(k));
            }
            assert forall|x: int, y: int|
                0 <= x < self.pixel_width() && 0 <= y < self.pixel_height()
                    implies #[trigger] layer.pixel_at(x, y) == self.wall_pixel(x, y) by {
                lemma_index_in_grid(x, y, wide as int, tall as int);
                assert(layer.pixel(y * wide + x) == self.wall_pixel_no(y * wide + x));
            }
        }
        layer
    }

    /// Lays `other` over the picture, with the overlay's alpha for blend
    /// factor. Refuses with `LayerMismatch`, changing nothing, a layer that
    /// is not of the picture's size.
    pub fn merge_pixel_layer(&mut self, other: PixelBuffer<Color>) -> (done: Result<(), MapError>)
        requires
            old(self).wf(),
            other.wf(),
        ensures
            final(self).wf(),
            final(self).height == old(self).height,
            final(self).width == old(self).width,
            final(self).sim_scale == old(self).sim_scale,
            final(self).lights == old(self).lights,
            final(self).squares == old(self).squares,
            final(self).texture == old(self).texture,
            final(self).pixel_buffer.cursor() == old(self).pixel_buffer.cursor(),
            done == if other.width() == old(self).pixel_width() && other.height() == old(self)
                .pixel_height() {
                Ok::<(), MapError>(())
            } else {
                Err::<(), MapError>(MapError::LayerMismatch)
            },
            done is Err ==> final(self).pixel_buffer@ == old(self).pixel_buffer@,
            done is Ok ==> forall|i: int|
                0 <= i < old(self).pixel_buffer.pixel_count() ==> #[trigger] final(self)
                    .pixel_buffer.pixel(i) == overlaid(
                    old(self).pixel_buffer.pixel(i),
                    other.pixel(i),
                ),
    {
        match self.pixel_buffer.merge(other) {
            Ok(()) => Ok(()),
            Err(_) => Err(MapError::LayerMismatch),
        }
    }

    /// Renders the map into its picture: lays the wall layer over the
    /// picture as it is, then adds to every pixel outside the walls the
    /// lights that reach it, in the order in which they were added.
    pub fn render(&mut self)
        requires
            old(self).wf(),
        ensures
            final(self).wf(),
            final(self).height == old(self).height,
            final(self).width == old(self).width,
            final(self).sim_scale == old(self).sim_scale,
            final(self).lights == old(self).lights,
            final(self).squares == old(self).squares,
            final(self).texture == old(self).texture,
            final(self).pixel_buffer.cursor() == old(self).pixel_buffer.cursor(),
            forall|x: int, y: int|
                0 <= x < old(self).pixel_width() && 0 <= y < old(self).pixel_height()
                    ==> #[trigger] final(self).pixel_buffer.pixel_at(x, y) == old(self).rendered(
                    x,
                    y,
                ),
    {
        proof {
            self.lemma_sizes();
        }
        let layer = self.color_walls();
        let ghost walls = layer;
        let merged_ok = self.pixel_buffer.merge(layer);
        assert(merged_ok is Ok);
        let ghost merged = self.pixel_buffer;
        let unit = self.tile_edge();
        let wide = self.pixel_buffer.width();
        let tall = self.pixel_buffer.height();
        let count: usize = self.pixel_buffer.buffer().len() / 3;
        let mut i: usize = 0;
        proof {
            merged.lemma_layout();
        }
        while i < count
            invariant
                self.wf(),
                self.height == old(self).height,
                self.width == old(self).width,
                self.sim_scale == old(self).sim_scale,
                self.lights == old(self).lights,
                self.squares == old(self).squares,
                self.texture == old(self).texture,
                self.pixel_buffer.cursor() == old(self).pixel_buffer.cursor(),
                unit == self.unit(),
                wide == self.pixel_width(),
                tall == self.pixel_height(),
                count == wide * tall,
                count == merged.pixel_count(),
                self.pixel_buffer.pixel_count() == count,
                wide > 0,
                i <= count,
                rendered_upto(&self.pixel_buffer, &merged, &*old(self), i as int),
            decreases count - i,
        {
            proof {
                lemma_position_in_grid(i as int, wide as int, tall as int);
            }
            let x: u64 = i as u64 % wide;
            let y: u64 = i as u64 / wide;
            let p = Point { x: x as i32, y: y as i32 };
            let ghost before = self.pixel_buffer;
            if !crate::sight::is_within_square(&self.squares, unit, p) {
                let base = self.pixel_buffer.get(x, y).unwrap();
                let shade = illuminate_all(&self.squares, unit, &self.lights, p, base);
                let stored = self.pixel_buffer.set(x, y, shade);
                assert(stored is Ok);
            }
            proof {
                assert(before.pixel(i as int) == merged.pixel(i as int));
                assert forall|k: int| 0 <= k < self.pixel_buffer.pixel_count() implies #[trigger]
                    self.pixel_buffer.pixel(k) == if k < i + 1 {
                    old(self).lit_pixel_no(merged.pixel(k), k)
                } else {
                    merged.pixel(k)
                } by {
                    if k != i {
                        assert(self.pixel_buffer.pixel(k) == before.pixel(k));
                    }
                }
            }
            i = i + 1;
        }
        proof {
            assert forall|x: int, y: int|
                0 <= x < old(self).pixel_width() && 0 <= y < old(self).pixel_height()
                    implies #[trigger] self.pixel_buffer.pixel_at(x, y) == old(self).rendered(
                x,
                y,
            ) by {
                lemma_index_in_grid(x, y, wide as int, tall as int);
                let k = y * wide + x;
                assert(self.pixel_buffer.pixel(k) == old(self).lit_pixel_no(merged.pixel(k), k));
                assert(merged.pixel(k) == overlaid(old(self).pixel_buffer.pixel(k), walls.pixel(k)));
                assert(walls.pixel(k) == old(self).wall_pixel_no(k));
            }
        }
    }
}

/// Encodes a picture as a PNG file. Fails with `TooLarge` where a side
/// exceeds 4,294,967,295 pixels, and with `Encoding` where the encoder
/// refuses the picture.
pub fn picture_to_png(picture: &PixelBuffer<Color3>) -> (file: Result<Vec<u8>, MapError>)
    requires
        picture.wf(),
    ensures
        picture.width() > u32::MAX || picture.height() > u32::MAX ==> file == Err::<
            Vec<u8>,
            MapError,
        >(MapError::TooLarge),
        picture.width() <= u32::MAX && picture.height() <= u32::MAX ==> match encoded_png(
            picture.width() as u32,
            picture.height() as u32,
            picture@,
        ) {
            Some(bytes) => file matches Ok(made) && made@ == bytes,
            None => file == Err::<Vec<u8>, MapError>(MapError::Encoding),
        },
{
    if picture.width() > u32::MAX as u64 || picture.height() > u32::MAX as u64 {
        return Err(MapError::TooLarge);
    }
    proof {
        picture.lemma_layout();
        assert(picture.width() * picture.height() * 3 == 3 * (picture.width() * picture.height()))
            by (nonlinear_arith);
    }
    match encode_png(picture.width() as u32, picture.height() as u32, picture.buffer().as_slice()) {
        Ok(made) => Ok(made),
        Err(_) => Err(MapError::Encoding),
    }
}

impl TileMap {
    /// The picture scaled up by `scale` in both directions, every pixel
    /// repeated as a square of `scale` by `scale` pixels. Fails with
    /// `ZeroDimension` for a scale of zero and with `TooLarge` for a result
    /// that cannot be addressed.
    pub fn upscaled(&self, scale: u64) -> (picture: Result<PixelBuffer<Color3>, MapError>)
        requires
            self.wf(),
        ensures
            picture == Err::<PixelBuffer<Color3>, MapError>(MapError::ZeroDimension) <==> scale
                == 0,
            picture == Err::<PixelBuffer<Color3>, MapError>(MapError::TooLarge) <==> scale > 0 && (
            self.pixel_width() * scale) * (self.pixel_height() * scale) * 3 > usize::MAX,
            picture matches Err(e) ==> e == MapError::ZeroDimension || e == MapError::TooLarge,
            picture matches Ok(scaled) ==> scaled.wf() && scaled.cursor()
                == self.pixel_buffer.cursor() && scaled.scaled_from(
                self.pixel_buffer,
                scale as int,
            ),
    {
        let mut copy = self.pixel_buffer.duplicate();
        match copy.upscale(scale) {
            Ok(()) => Ok(copy),
            Err(BufferError::ZeroDimension) => Err(MapError::ZeroDimension),
            Err(_) => Err(MapError::TooLarge),
        }
    }

    /// The picture as a PNG file.
    pub fn to_png(&self) -> (file: Result<Vec<u8>, MapError>)
        requires
            self.wf(),
        ensures
            match encoded_png(
                self.pixel_width() as u32,
                self.pixel_height() as u32,
                self.pixel_buffer@,
            ) {
                Some(bytes) => file matches Ok(made) && made@ == bytes,
                None => file == Err::<Vec<u8>, MapError>(MapError::Encoding),
            },
    {
        picture_to_png(&self.pixel_buffer)
    }

    /// The picture, scaled up by `scale`, as a PNG file. Fails as
    /// `upscaled` and `picture_to_png` do.
    pub fn to_png_upscaled(&self, scale: u64) -> (file: Result<Vec<u8>, MapError>)
        requires
            self.wf(),
        ensures
            scale == 0 ==> file == Err::<Vec<u8>, MapError>(MapError::ZeroDimension),
            scale > 0 && ((self.pixel_width() * scale) * (self.pixel_height() * scale) * 3
                > usize::MAX || self.pixel_width() * scale > u32::MAX || self.pixel_height() * scale
                > u32::MAX) ==> file == Err::<Vec<u8>, MapError>(MapError::TooLarge),
            scale > 0 && (self.pixel_width() * scale) * (self.pixel_height() * scale) * 3
                <= usize::MAX && self.pixel_width() * scale <= u32::MAX && self.pixel_height()
                * scale <= u32::MAX ==> exists|scaled: PixelBuffer<Color3>|
                {
                    &&& scaled.wf()
                    &&& #[trigger] scaled.scaled_from(self.pixel_buffer, scale as int)
                    &&& match encoded_png(scaled.width() as u32, scaled.height() as u32, scaled@) {
                        Some(bytes) => file matches Ok(made) && made@ == bytes,
                        None => file == Err::<Vec<u8>, MapError>(MapError::Encoding),
                    }
                },
    {
        match self.upscaled(scale) {
            Ok(scaled) => {
                let file = picture_to_png(&scaled);
                assert(scaled.scaled_from(self.pixel_buffer, scale as int));
                file
            },
            Err(e) => Err(e),
        }
    }
}

impl Light {
    /// Where no tile is occupied that the upright rectangle between the
    /// light and the position `p` touches, the light reaches `p` exactly
    /// when `p` is nearer than the light's intensity.
    pub proof fn lemma_reaches_in_free_box(self, grid: &OccupancyGrid, unit: int, p: Point)
        requires
            unit > 0,
            free_between(grid, unit, self.position, p),
        ensures
            self.reaches(grid, unit, p) == (self.position.dist_sq(p) < self.intensity
                * self.intensity),
    {
        lemma_sight_in_free_box(grid, unit, self.position, p);
    }
}

impl TileMap {
    /// A pixel of the picture lies in a wall exactly when its tile is
    /// occupied.
    pub proof fn lemma_pixel_in_wall(&self, x: int, y: int)
        requires
            self.wf(),
            0 <= x < self.pixel_width(),
            0 <= y < self.pixel_height(),
        ensures
            in_wall(&self.squares, self.unit(), Point { x: x as i32, y: y as i32 })
                == self.squares.occupied(x / self.unit(), y / self.unit()),
    {
    }

    /// In a wall tile the rendered pixel is the wall layer's pixel laid over
    /// what the picture holds; no light changes it.
    pub proof fn lemma_rendered_wall(&self, x: int, y: int)
        requires
            self.wf(),
            0 <= x < self.pixel_width(),
            0 <= y < self.pixel_height(),
            self.squares.occupied(x / self.unit(), y / self.unit()),
        ensures
            self.rendered(x, y) == overlaid(self.pixel_buffer.pixel_at(x, y), self.wall_pixel(x, y)),
    {
        self.lemma_pixel_in_wall(x, y);
    }

    /// Outside the walls, under a single light, the rendered pixel is what
    /// the picture holds with that light added.
    pub proof fn lemma_rendered_under_one_light(&self, x: int, y: int)
        requires
            self.wf(),
            0 <= x < self.pixel_width(),
            0 <= y < self.pixel_height(),
            !self.squares.occupied(x / self.unit(), y / self.unit()),
            self.lights@.len() == 1,
        ensures
            self.rendered(x, y) == self.lights@[0].shine(
                &self.squares,
                self.unit(),
                Point { x: x as i32, y: y as i32 },
                self.pixel_buffer.pixel_at(x, y),
            ),
    {
        self.lemma_pixel_in_wall(x, y);
        lemma_overlaid_transparent(self.pixel_buffer.pixel_at(x, y), self.wall_pixel(x, y));
        reveal_with_fuel(lit, 2);
    }
}

/// The square of a whole number between -12 and 12 is one of thirteen.
proof fn lemma_small_square(v: int)
    requires
        -12 <= v <= 12,
    ensures
        v * v == 0 || v * v == 1 || v * v == 4 || v * v == 9 || v * v == 16 || v * v == 25 || v * v
            == 36 || v * v == 49 || v * v == 64 || v * v == 81 || v * v == 100 || v * v == 121
            || v * v == 144,
{
    assert(v * v == (-v) * (-v)) by (nonlinear_arith);
    let w = if v < 0 {
        -v
    } else {
        v
    };
    assert(w * w == v * v);
    if w == 0 {
    } else if w == 1 {
    } else if w == 2 {
    } else if w == 3 {
    } else if w == 4 {
    } else if w == 5 {
    } else if w == 6 {
    } else if w == 7 {
    } else if w == 8 {
    } else if w == 9 {
    } else if w == 10 {
    } else if w == 11 {
    } else {
        assert(w == 12);
    }
}

/// What a white light leaves of black at the squared distance `dist_sq`,
/// when it fades out at the distance `reach`: `255 * (1 - sqrt(dist_sq) /
/// reach)` rounded down, and zero from `reach` on.
pub open spec fn white_over_black(dist_sq: int, reach: int) -> int {
    if dist_sq >= reach * reach {
        0
    } else {
        255 - ceil_sqrt(ceil_div((65025 * dist_sq) as nat, (reach * reach) as nat))
    }
}

/// A scene of two by two tiles of eight pixels, black before rendering,
/// with the one wall tile at the top left and one white light at the centre
/// of the tile at the bottom right, reaching twelve pixels. Rendered, the
/// wall tile shows the solid piece of the atlas, which starts at `(56, 0)`.
/// Every other pixel is the gray that the light leaves at its distance,
/// for no sight line to it is cut by the wall: at the light itself 255, in
/// the light's own tile at least 134, and wherever else the light reaches
/// at least 1 and less than 255.
pub proof fn lemma_one_wall_one_light(map: &TileMap, x: int, y: int)
    requires
        map.wf(),
        map.width == 2,
        map.height == 2,
        map.sim_scale == 1,
        forall|col: int, row: int| #[trigger] map.squares.occupied(col, row) == (col == 0 && row == 0),
        map.lights@.len() == 1,
        map.lights@[0] == (Light {
            position: Point { x: 12, y: 12 },
            color: Color { r: 255, g: 255, b: 255, a: 255 },
            intensity: 12,
        }),
        forall|i: int|
            0 <= i < map.pixel_buffer.pixel_count() ==> #[trigger] map.pixel_buffer.pixel(i)
                == (Color3 { r: 0, g: 0, b: 0 }),
        0 <= x < 16,
        0 <= y < 16,
    ensures
        x < 8 && y < 8 ==> map.rendered(x, y) == overlaid(
            Color3 { r: 0, g: 0, b: 0 },
            rgba_in(map.texture@, 64, 56 + x, y),
        ),
        !(x < 8 && y < 8) ==> {
            let gray = white_over_black((x - 12) * (x - 12) + (y - 12) * (y - 12), 12);
            &&& 0 <= gray <= 255
            &&& map.rendered(x, y) == (Color3 { r: gray as u8, g: gray as u8, b: gray as u8 })
        },
        x >= 8 && y >= 8 ==> map.rendered(x, y).r >= 134,
        x == 12 && y == 12 ==> map.rendered(x, y) == (Color3 { r: 255, g: 255, b: 255 }),
        !(x < 8 && y < 8) && !(x == 12 && y == 12) && (x - 12) * (x - 12) + (y - 12) * (y - 12)
            < 144 ==> 1 <= map.rendered(x, y).r < 255,
{
    map.lemma_sizes();
    assert(map.unit() == 8 && map.pixel_width() == 16 && map.pixel_height() == 16);
    lemma_index_in_grid(x, y, 16, 16);
    let base = map.pixel_buffer.pixel_at(x, y);
    assert(base == map.pixel_buffer.pixel(y * 16 + x));
    assert(base == (Color3 { r: 0, g: 0, b: 0 }));
    if x < 8 && y < 8 {
        assert(map.squares.occupied(0, 0));
        map.lemma_rendered_wall(x, y);
        assert(map.squares.mask_of(0, 0) == 0);
    } else {
        let light = map.lights@[0];
        let p = Point { x: x as i32, y: y as i32 };
        let dist_sq = (x - 12) * (x - 12) + (y - 12) * (y - 12);
        assert(!map.squares.occupied(x / 8, y / 8));
        map.lemma_rendered_under_one_light(x, y);
        assert forall|col: int, row: int| in_box(8, light.position, p, col, row) implies !#[trigger]
            map.squares.occupied(col, row) by {
            if col == 0 && row == 0 {
                assert(tile_coord(x, 8) == 0 || tile_coord(12, 8) == 0);
                assert(tile_coord(y, 8) == 0 || tile_coord(12, 8) == 0);
            }
        }
        light.lemma_reaches_in_free_box(&map.squares, 8, p);
        assert(light.position.dist_sq(p) == dist_sq);
        assert(0 <= (x - 12) * (x - 12) <= 144 && 0 <= (y - 12) * (y - 12) <= 144)
            by (nonlinear_arith)
            requires
                0 <= x < 16,
                0 <= y < 16,
        ;
        if dist_sq < 144 {
            assert(12nat * 12nat == 144);
            assert(dist_sq as nat == dist_sq);
            crate::factor::lemma_mix_falloff_between(255, 0, dist_sq as nat, 12);
            assert((0 - 255) * (0 - 255) == 65025);
            if x >= 8 && y >= 8 {
                assert((x - 12) * (x - 12) <= 16 && (y - 12) * (y - 12) <= 16) by (nonlinear_arith)
                    requires
                        8 <= x < 16,
                        8 <= y < 16,
                ;
                let scaled = (65025 * dist_sq) as nat;
                lemma_ceil_div_least(scaled, 144, 14641);
                lemma_ceil_sqrt_least(ceil_div(scaled, 144), 121);
            }
            if x == 12 && y == 12 {
                assert(ceil_div(0, 144) == 0);
                assert(crate::roots::floor_sqrt(0) == 0);
                assert(ceil_sqrt(0) == 0);
            } else {
                lemma_small_square(x - 12);
                lemma_small_square(y - 12);
                assert((x == 12 || (x - 12) * (x - 12) >= 1) && (y == 12 || (y - 12) * (y - 12)
                    >= 1)) by (nonlinear_arith);
                assert(dist_sq != 143);
                assert(1 <= dist_sq <= 142);
                let scaled = (65025 * dist_sq) as nat;
                let parts = ceil_div(scaled, 144);
                lemma_ceil_div_least(scaled, 144, 64516);
                lemma_ceil_sqrt_least(parts, 254);
                lemma_ceil_div_reaches(scaled, 144);
                lemma_ceil_sqrt_reaches(parts);
            }
        } else {
            assert(!(x >= 8 && y >= 8)) by (nonlinear_arith)
                requires
                    dist_sq >= 144,
                    dist_sq == (x - 12) * (x - 12) + (y - 12) * (y - 12),
                    0 <= x < 16,
                    0 <= y < 16,
            ;
        }
    }
}

/// The picture of a map is at least as wide and as high as the map has
/// tiles, and a tile is at least as wide as the scale.
pub proof fn lemma_sides(height: int, width: int, sim_scale: int)
    requires
        height > 0,
        width > 0,
        sim_scale > 0,
    ensures
        width * 8 * sim_scale == width * (sim_scale * 8),
        height * 8 * sim_scale == height * (sim_scale * 8),
        sim_scale * 8 <= width * 8 * sim_scale,
        sim_scale * 8 <= height * 8 * sim_scale,
        width <= width * 8 * sim_scale,
        height <= height * 8 * sim_scale,
        width * height <= (width * 8 * sim_scale) * (height * 8 * sim_scale) * 3,
{
    assert(width * 8 * sim_scale == width * (sim_scale * 8)) by (nonlinear_arith);
    assert(height * 8 * sim_scale == height * (sim_scale * 8)) by (nonlinear_arith);
    assert(sim_scale * 8 <= width * (sim_scale * 8) && width <= width * (sim_scale * 8))
        by (nonlinear_arith)
        requires
            width > 0,
            sim_scale > 0,
    ;
    assert(sim_scale * 8 <= height * (sim_scale * 8) && height <= height * (sim_scale * 8))
        by (nonlinear_arith)
        requires
            height > 0,
            sim_scale > 0,
    ;
    let wide = width * 8 * sim_scale;
    let tall = height * 8 * sim_scale;
    assert(width * height <= wide * tall * 3) by (nonlinear_arith)
        requires
            0 < width <= wide,
            0 < height <= tall,
    ;
}

} // verus!
