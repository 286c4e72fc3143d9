//! The occupancy grid: which tiles of the map are walls, and which of the
//! eight neighbours of a tile are.

use vstd::prelude::*;
use crate::autotile::has_neighbour;
use crate::pixel_buffer::lemma_index_in_grid;

verus! {

/// Why a grid operation was refused.
#[derive(Debug, Clone, Copy, PartialEq, Eq, Structural)]
pub enum GridError {
    /// A width or a height of zero.
    ZeroDimension,
    /// The number of tiles does not fit the machine's address range.
    TooLarge,
    /// A tile position outside the grid.
    OutOfGrid,
}

/// A grid of tiles, each occupied or free, with tile `(0, 0)` at the
/// top-left corner.
pub struct OccupancyGrid {
    width: u64,
    height: u64,
    cells: Vec<bool>,
}

impl View for OccupancyGrid {
    type V = Seq<bool>;

    /// The tiles row after row, `true` for an occupied one.
    closed spec fn view(&self) -> Seq<bool> {
        self.cells@
    }
}

/// The row of character `k` of a text: the number of line feeds before it.
pub open spec fn row_of(text: Seq<char>, k: int) -> int
    decreases k,
{
    if k <= 0 {
        0
    } else {
        row_of(text, k - 1) + if text[k - 1] == '\n' {
            1int
        } else {
            0int
        }
    }
}

/// The column of character `k` of a text: the number of characters between
/// it and the line feed before it, or the start of the text.
pub open spec fn col_of(text: Seq<char>, k: int) -> int
    decreases k,
{
    if k <= 0 {
        0
    } else if text[k - 1] == '\n' {
        0
    } else {
        col_of(text, k - 1) + 1
    }
}

/// A count as far as a 64-bit counter follows it.
pub open spec fn limited(count: int) -> int {
    if count < u64::MAX {
        count
    } else {
        u64::MAX as int
    }
}

/// Whether character `k` of a text is a `#` in column `col` of row `row`.
pub open spec fn hit(text: Seq<char>, k: int, col: int, row: int) -> bool {
    text[k] == '#' && col_of(text, k) == col && row_of(text, k) == row
}

/// Whether one of the first `n` characters of a text is a `#` in column
/// `col` of row `row`.
pub open spec fn marked_before(text: Seq<char>, n: int, col: int, row: int) -> bool {
    exists|k: int| 0 <= k < n && #[trigger] hit(text, k, col, row)
}

/// Whether a text marks the tile `(col, row)`: one line of text for each row
/// of tiles, a `#` for an occupied tile, any other character for a free one.
pub open spec fn marked(text: Seq<char>, col: int, row: int) -> bool {
    marked_before(text, text.len() as int, col, row)
}

/// Whether every `#` among the first `n` characters of a text stands inside
/// a grid of the given size.
pub open spec fn marks_fit_before(text: Seq<char>, n: int, width: int, height: int) -> bool {
    forall|k: int|
        0 <= k < n && text[k] == '#' ==> #[trigger] col_of(text, k) < width && row_of(text, k)
            < height
}

/// Whether every `#` of a text stands inside a grid of the given size.
pub open spec fn marks_fit(text: Seq<char>, width: int, height: int) -> bool {
    marks_fit_before(text, text.len() as int, width, height)
}

impl OccupancyGrid {
    /// The width in tiles.
    pub closed spec fn spec_width(&self) -> u64 {
        self.width
    }

    /// The height in tiles.
    pub closed spec fn spec_height(&self) -> u64 {
        self.height
    }

    /// A grid is well formed when neither side is zero and it holds one
    /// entry for each tile.
    pub open spec fn wf(&self) -> bool {
        &&& self.width() > 0
        &&& self.height() > 0
        &&& self@.len() == self.width() * self.height()
    }

    /// Whether the tile `(col, row)` is occupied. A position outside the grid
    /// is free.
    pub open spec fn occupied(&self, col: int, row: int) -> bool {
        0 <= col < self.width() && 0 <= row < self.height() && self@[row * self.width() + col]
    }

    /// `weight` if the tile `(col, row)` is occupied, else zero.
    pub open spec fn weighed(&self, col: int, row: int, weight: int) -> int {
        if self.occupied(col, row) {
            weight
        } else {
            0
        }
    }

    /// The neighbour mask of the tile `(col, row)`: one bit for each of the
    /// eight tiles around it, set where that tile is occupied, from 128 for
    /// the top-left one, row by row, to 1 for the bottom-right one. A
    /// neighbour outside the grid counts as free.
    pub open spec fn mask_of(&self, col: int, row: int) -> int {
        self.weighed(col - 1, row - 1, 128) + self.weighed(col, row - 1, 64) + self.weighed(
            col + 1,
            row - 1,
            32,
        ) + self.weighed(col - 1, row, 16) + self.weighed(col + 1, row, 8) + self.weighed(
            col - 1,
            row + 1,
            4,
        ) + self.weighed(col, row + 1, 2) + self.weighed(col + 1, row + 1, 1)
    }

    /// A grid of the given size in which every tile is free.
    pub fn new(width: u64, height: u64) -> (made: Result<OccupancyGrid, GridError>)
        ensures
            made == Err::<OccupancyGrid, GridError>(GridError::ZeroDimension) <==> width == 0
                || height == 0,
            made == Err::<OccupancyGrid, GridError>(GridError::TooLarge) <==> width > 0 && height
                > 0 && width * height > usize::MAX,
            made matches Err(e) ==> e == GridError::ZeroDimension || e == GridError::TooLarge,
            made matches Ok(grid) ==> {
                &&& grid.wf()
                &&& grid.width() == width
                &&& grid.height() == height
                &&& forall|col: int, row: int| !#[trigger] grid.occupied(col, row)
            },
    {
        if width == 0 || height == 0 {
            return Err(GridError::ZeroDimension);
        }
        let count: usize = match width.checked_mul(height) {
            Some(count) => if count <= usize::MAX as u64 {
                count as usize
            } else {
                return Err(GridError::TooLarge);
            },
            None => {
                return Err(GridError::TooLarge);
            },
        };
        let mut cells: Vec<bool> = Vec::new();
        while cells.len() < count
            invariant
                cells.len() <= count,
                forall|i: int| 0 <= i < cells.len() ==> !#[trigger] cells[i],
            decreases count - cells.len(),
        {
            cells.push(false);
        }
        let grid = OccupancyGrid { width, height, cells };
        proof {
            assert forall|col: int, row: int| !#[trigger] grid.occupied(col, row) by {
                if 0 <= col < width && 0 <= row < height {
                    lemma_index_in_grid(col, row, width as int, height as int);
                }
            }
        }
        Ok(grid)
    }

    /// Whether the grid is well formed, as every grid made by this module
    /// is.
    pub fn is_well_formed(&self) -> (ok: bool)
        ensures
            ok == self.wf(),
    {
        if self.width == 0 || self.height == 0 {
            return false;
        }
        proof {
            assert(self.cells.len() == self.cells@.len());
        }
        match self.width.checked_mul(self.height) {
            Some(count) => count == self.cells.len() as u64,
            None => false,
        }
    }

    /// The width in tiles.
    #[verifier::when_used_as_spec(spec_width)]
    pub fn width(&self) -> (w: u64)
        ensures
            w == self.width(),
    {
        self.width
    }

    /// The height in tiles.
    #[verifier::when_used_as_spec(spec_height)]
    pub fn height(&self) -> (h: u64)
        ensures
            h == self.height(),
    {
        self.height
    }

    /// Whether the tile `(col, row)` is occupied; a position outside the
    /// grid is free.
    pub fn is_occupied(&self, col: u64, row: u64) -> (occupied: bool)
        requires
            self.wf(),
        ensures
            occupied == self.occupied(col as int, row as int),
    {
        if col < self.width && row < self.height {
            proof {
                lemma_index_in_grid(col as int, row as int, self.width as int, self.height as int);
                assert(self.cells.len() == self.cells@.len());
            }
            self.cells[(row * self.width + col) as usize]
        } else {
            false
        }
    }

    /// Marks the tile `(col, row)` as occupied or free and leaves every
    /// other tile as it was; refuses with `OutOfGrid`, changing nothing, a
    /// position outside the grid.
    pub fn set(&mut self, col: u64, row: u64, occupied: bool) -> (done: Result<(), GridError>)
        requires
            old(self).wf(),
        ensures
            final(self).wf(),
            final(self).width() == old(self).width(),
            final(self).height() == old(self).height(),
            done == if col < old(self).width() && row < old(self).height() {
                Ok::<(), GridError>(())
            } else {
                Err::<(), GridError>(GridError::OutOfGrid)
            },
            done is Err ==> final(self)@ == old(self)@,
            done is Ok ==> forall|c: int, r: int| #[trigger]
                final(self).occupied(c, r) == if c == col && r == row {
                    occupied
                } else {
                    old(self).occupied(c, r)
                },
    {
        if col >= self.width || row >= self.height {
            return Err(GridError::OutOfGrid);
        }
        proof {
            lemma_index_in_grid(col as int, row as int, self.width as int, self.height as int);
            assert(self.cells.len() == self.cells@.len());
        }
        self.cells.set((row * self.width + col) as usize, occupied);
        proof {
            assert forall|c: int, r: int| #[trigger]
                self.occupied(c, r) == if c == col && r == row {
                    occupied
                } else {
                    old(self).occupied(c, r)
                } by {
                if 0 <= c < self.width && 0 <= r < self.height {
                    lemma_index_in_grid(c, r, self.width as int, self.height as int);
                    if r * self.width + c == row * self.width + col {
                        assert(r == row && c == col);
                    }
                }
            }
        }
        Ok(())
    }

    /// The neighbour mask of the tile `(col, row)`: which of the eight tiles
    /// around it are occupied. A neighbour outside the grid counts as free.
    pub fn neighbour_mask(&self, col: u64, row: u64) -> (mask: u8)
        requires
            self.wf(),
        ensures
            mask == self.mask_of(col as int, row as int),
    {
        let mut mask: u8 = 0;
        let left = col > 0;
        let up = row > 0;
        let right = col < u64::MAX;
        let down = row < u64::MAX;
        if left && up && self.is_occupied(col - 1, row - 1) {
            mask = mask + 128;
        }
        if up && self.is_occupied(col, row - 1) {
            mask = mask + 64;
        }
        if right && up && self.is_occupied(col + 1, row - 1) {
            mask = mask + 32;
        }
        if left && self.is_occupied(col - 1, row) {
            mask = mask + 16;
        }
        if right && self.is_occupied(col + 1, row) {
            mask = mask + 8;
        }
        if left && down && self.is_occupied(col - 1, row + 1) {
            mask = mask + 4;
        }
        if down && self.is_occupied(col, row + 1) {
            mask = mask + 2;
        }
        if right && down && self.is_occupied(col + 1, row + 1) {
            mask = mask + 1;
        }
        mask
    }

    /// Marks as occupied every tile that `text` marks with a `#`: one line
    /// for each row of tiles, from the top; one character for each tile,
    /// from the left. Tiles that the text does not mark stay as they were.
    /// Refuses with `OutOfGrid`, changing nothing, a text with a `#` outside
    /// the grid.
    pub fn mark_from_text(&mut self, text: &str) -> (done: Result<(), GridError>)
        requires
            old(self).wf(),
        ensures
            final(self).wf(),
            final(self).width() == old(self).width(),
            final(self).height() == old(self).height(),
            done == if marks_fit(text@, old(self).width() as int, old(self).height() as int) {
                Ok::<(), GridError>(())
            } else {
                Err::<(), GridError>(GridError::OutOfGrid)
            },
            done is Err ==> final(self)@ == old(self)@,
            done is Ok ==> forall|col: int, row: int| #[trigger]
                final(self).occupied(col, row) == (old(self).occupied(col, row) || marked(
                    text@,
                    col,
                    row,
                )),
    {
        let mut col: u64 = 0;
        let mut row: u64 = 0;
        let mut fits = true;
        for c in it: text.chars()
            invariant
                it.seq() == text@,
                col == limited(col_of(text@, it.index() as int)),
                row == limited(row_of(text@, it.index() as int)),
                fits == marks_fit_before(
                    text@,
                    it.index() as int,
                    self.width as int,
                    self.height as int,
                ),
        {
            if c == '#' && (col >= self.width || row >= self.height) {
                fits = false;
            }
            if c == '\n' {
                row = if row < u64::MAX {
                    row + 1
                } else {
                    row
                };
                col = 0;
            } else {
                col = if col < u64::MAX {
                    col + 1
                } else {
                    col
                };
            }
        }
        if !fits {
            return Err(GridError::OutOfGrid);
        }
        col = 0;
        row = 0;
        for c in it: text.chars()
            invariant
                it.seq() == text@,
                col == limited(col_of(text@, it.index() as int)),
                row == limited(row_of(text@, it.index() as int)),
                marks_fit(text@, self.width as int, self.height as int),
                self.wf(),
                self.width == old(self).width,
                self.height == old(self).height,
                forall|c: int, r: int| #[trigger]
                    self.occupied(c, r) == (old(self).occupied(c, r) || marked_before(
                        text@,
                        it.index() as int,
                        c,
                        r,
                    )),
        {
            let ghost k = it.index() as int;
            let ghost before = *self;
            if c == '#' {
                proof {
                    assert(col_of(text@, k) < self.width && row_of(text@, k) < self.height);
                    lemma_index_in_grid(col as int, row as int, self.width as int, self.height as int);
                    assert(self.cells.len() == self.cells@.len());
                }
                self.cells.set((row * self.width + col) as usize, true);
            }
            proof {
                assert forall|c2: int, r2: int| #[trigger]
                    self.occupied(c2, r2) == (old(self).occupied(c2, r2) || marked_before(
                        text@,
                        k + 1,
                        c2,
                        r2,
                    )) by {
                    let now = hit(text@, k, c2, r2);
                    assert(marked_before(text@, k + 1, c2, r2) == (marked_before(text@, k, c2, r2)
                        || now)) by {
                        if marked_before(text@, k + 1, c2, r2) {
                            let w = choose|w: int| 0 <= w < k + 1 && #[trigger] hit(text@, w, c2, r2);
                            if w < k {
                                assert(marked_before(text@, k, c2, r2));
                            }
                        }
                        if marked_before(text@, k, c2, r2) {
                            let w = choose|w: int| 0 <= w < k && #[trigger] hit(text@, w, c2, r2);
                            assert(0 <= w < k + 1 && hit(text@, w, c2, r2));
                        }
                        if now {
                            assert(0 <= k < k + 1 && hit(text@, k, c2, r2));
                        }
                    }
                    assert(before.occupied(c2, r2) == (old(self).occupied(c2, r2) || marked_before(
                        text@,
                        k,
                        c2,
                        r2,
                    )));
                    if 0 <= c2 < self.width && 0 <= r2 < self.height {
                        lemma_index_in_grid(c2, r2, self.width as int, self.height as int);
                        if c == '#' {
                            lemma_index_in_grid(
                                col as int,
                                row as int,
                                self.width as int,
                                self.height as int,
                            );
                            if r2 * self.width + c2 == row * self.width + col {
                                assert(r2 == row && c2 == col);
                            }
                        }
                    }
                }
            }
            if c == '\n' {
                row = if row < u64::MAX {
                    row + 1
                } else {
                    row
                };
                col = 0;
            } else {
                col = if col < u64::MAX {
                    col + 1
                } else {
                    col
                };
            }
        }
        Ok(())
    }

    /// In a neighbour mask, the bit of a neighbour is set exactly when that
    /// neighbour is occupied.
    pub proof fn lemma_mask_bits(&self, col: int, row: int)
        ensures
            0 <= self.mask_of(col, row) < 256,
            ({
                let mask = self.mask_of(col, row) as u8;
                &&& has_neighbour(mask, 128) == self.occupied(col - 1, row - 1)
                &&& has_neighbour(mask, 64) == self.occupied(col, row - 1)
                &&& has_neighbour(mask, 32) == self.occupied(col + 1, row - 1)
                &&& has_neighbour(mask, 16) == self.occupied(col - 1, row)
                &&& has_neighbour(mask, 8) == self.occupied(col + 1, row)
                &&& has_neighbour(mask, 4) == self.occupied(col - 1, row + 1)
                &&& has_neighbour(mask, 2) == self.occupied(col, row + 1)
                &&& has_neighbour(mask, 1) == self.occupied(col + 1, row + 1)
            }),
    {
    }
}

} // verus!
