//! Positions on the map and the line of sight between them.
//!
//! Positions are measured in output pixels; `unit` is the edge length of one
//! tile in that measure. The sight line from one position to another is
//! sampled at evenly spaced points, twenty for each tile of distance, and is
//! clear when none of them lies in an occupied tile. This is ray marching,
//! not exact geometry: a sight line can slip past the very corner of an
//! occupied tile between two samples.

use vstd::prelude::*;
use crate::grid::OccupancyGrid;
use crate::roots::{
    ceil_div, ceil_sqrt, div_ceil, isqrt_ceil, lemma_ceil_div_least, lemma_ceil_div_reaches,
    lemma_ceil_sqrt_least, lemma_ceil_sqrt_reaches, lemma_product_bound,
};

verus! {

/// The samples taken for each tile of distance along a sight line.
pub const SAMPLES_PER_TILE: u64 = 20;

/// A position on the map, in output pixels from the top-left corner.
#[derive(Debug, Clone, Copy, PartialEq, Eq, Structural)]
pub struct Point {
    pub x: i32,
    pub y: i32,
}

/// The tile coordinate of a position given as the fraction `numer / denom`
/// of a tile's width, with a positive `denom`: the fraction rounded down, or
/// zero for a negative one, so that a position left of or above the map
/// counts for the first column or row.
pub open spec fn tile_coord(numer: int, denom: int) -> int {
    if numer < 0 {
        0
    } else {
        numer / denom
    }
}

impl Point {
    /// The square of the distance to `other`.
    pub open spec fn dist_sq(self, other: Point) -> int {
        (other.x - self.x) * (other.x - self.x) + (other.y - self.y) * (other.y - self.y)
    }

    /// The dot product with `other`, both read as vectors.
    pub open spec fn dot_product(self, other: Point) -> int {
        self.x * other.x + self.y * other.y
    }

    /// The position `(x, y)`.
    pub fn new(x: i32, y: i32) -> (p: Point)
        ensures
            p == (Point { x, y }),
    {
        Point { x, y }
    }

    /// The square of the distance to `other`.
    pub fn distance_squared(&self, other: &Point) -> (d: u128)
        ensures
            d == self.dist_sq(*other),
            d <= 0x2_0000_0000_0000_0000,
    {
        let dx: i128 = other.x as i128 - self.x as i128;
        let dy: i128 = other.y as i128 - self.y as i128;
        proof {
            lemma_square_bound(dx as int);
            lemma_square_bound(dy as int);
        }
        (dx * dx + dy * dy) as u128
    }

    /// The dot product with `other`, both read as vectors.
    pub fn dot(&self, other: &Point) -> (d: i128)
        ensures
            d == self.dot_product(*other),
    {
        proof {
            lemma_signed_product_bound(self.x as int, other.x as int);
            lemma_signed_product_bound(self.y as int, other.y as int);
        }
        self.x as i128 * other.x as i128 + self.y as i128 * other.y as i128
    }

    /// Whether `other` is at most `tolerance` away.
    pub fn is_near(&self, other: &Point, tolerance: u32) -> (near: bool)
        ensures
            near == (self.dist_sq(*other) <= tolerance * tolerance),
    {
        proof {
            lemma_product_bound(tolerance as nat, tolerance as nat, 0xffff_ffff, 0xffff_ffff);
        }
        self.distance_squared(other) <= tolerance as u128 * tolerance as u128
    }
}

/// The square of a difference of two 32-bit coordinates.
proof fn lemma_square_bound(d: int)
    requires
        -0x1_0000_0000 < d < 0x1_0000_0000,
    ensures
        0 <= d * d <= 0x1_0000_0000_0000_0000,
{
    assert(0 <= d * d <= 0x1_0000_0000_0000_0000) by (nonlinear_arith)
        requires
            -0x1_0000_0000 < d < 0x1_0000_0000,
    ;
}

/// The product of two 32-bit coordinates.
proof fn lemma_signed_product_bound(a: int, b: int)
    requires
        -0x8000_0000 <= a < 0x8000_0000,
        -0x8000_0000 <= b < 0x8000_0000,
    ensures
        -0x4000_0000_0000_0000 <= a * b <= 0x4000_0000_0000_0000,
{
    assert(-0x4000_0000_0000_0000 <= a * b <= 0x4000_0000_0000_0000) by (nonlinear_arith)
        requires
            -0x8000_0000 <= a < 0x8000_0000,
            -0x8000_0000 <= b < 0x8000_0000,
    ;
}

/// Whether the position `p` lies in an occupied tile.
pub open spec fn in_wall(grid: &OccupancyGrid, unit: int, p: Point) -> bool {
    grid.occupied(tile_coord(p.x as int, unit), tile_coord(p.y as int, unit))
}

/// The number of samples on the sight line from `a` to `b`: twenty times the
/// distance in tiles, rounded up to whole tiles.
pub open spec fn sample_count(unit: int, a: Point, b: Point) -> int {
    SAMPLES_PER_TILE * ceil_div(ceil_sqrt(a.dist_sq(b) as nat), unit as nat)
}

/// Whether sample `i` of the sight line from `a` to `b`, the point `a + (b -
/// a) * i / n` for `n` samples, lies in an occupied tile.
pub open spec fn blocked_at(grid: &OccupancyGrid, unit: int, a: Point, b: Point, i: int) -> bool {
    let n = sample_count(unit, a, b);
    grid.occupied(
        tile_coord(a.x * n + (b.x - a.x) * i, n * unit),
        tile_coord(a.y * n + (b.y - a.y) * i, n * unit),
    )
}

/// Whether the sight line from `a` to `b` is clear: no sample, from `a`
/// itself up to the last one before `b`, lies in an occupied tile.
pub open spec fn line_of_sight(grid: &OccupancyGrid, unit: int, a: Point, b: Point) -> bool {
    forall|i: int| 0 <= i < sample_count(unit, a, b) ==> !#[trigger] blocked_at(grid, unit, a, b, i)
}

/// Whether the tile with the coordinates `tile_coord(numer_x, denom)` and
/// `tile_coord(numer_y, denom)` is occupied.
fn occupied_at(grid: &OccupancyGrid, numer_x: i128, numer_y: i128, denom: i128) -> (occupied: bool)
    requires
        grid.wf(),
        denom > 0,
    ensures
        occupied == grid.occupied(tile_coord(numer_x as int, denom as int), tile_coord(
            numer_y as int,
            denom as int,
        )),
{
    let col: i128 = if numer_x < 0 {
        0
    } else {
        numer_x / denom
    };
    let row: i128 = if numer_y < 0 {
        0
    } else {
        numer_y / denom
    };
    if col > u64::MAX as i128 || row > u64::MAX as i128 {
        false
    } else {
        grid.is_occupied(col as u64, row as u64)
    }
}

/// Whether the position `p` lies in an occupied tile.
pub fn is_within_square(grid: &OccupancyGrid, unit: u64, p: Point) -> (inside: bool)
    requires
        grid.wf(),
        unit > 0,
    ensures
        inside == in_wall(grid, unit as int, p),
{
    occupied_at(grid, p.x as i128, p.y as i128, unit as i128)
}

/// Whether `b` can be seen from `a`: walks the samples of the sight line and
/// stops at the first one in an occupied tile.
pub fn point_has_los(grid: &OccupancyGrid, unit: u64, a: Point, b: Point) -> (clear: bool)
    requires
        grid.wf(),
        unit > 0,
    ensures
        clear == line_of_sight(grid, unit as int, a, b),
{
    let dx: i128 = b.x as i128 - a.x as i128;
    let dy: i128 = b.y as i128 - a.y as i128;
    let dist_sq = a.distance_squared(&b);
    let reach = isqrt_ceil(dist_sq);
    proof {
        assert(0x2_0000_0000_0000_0000 <= 0x2_0000_0000nat * 0x2_0000_0000nat) by (nonlinear_arith);
        lemma_ceil_sqrt_least(dist_sq as nat, 0x2_0000_0000);
        assert(reach as nat <= reach as nat * unit as nat) by (nonlinear_arith)
            requires
                unit >= 1,
        ;
        lemma_ceil_div_least(reach as nat, unit as nat, reach as nat);
    }
    let tiles = div_ceil(reach, unit as u128);
    proof {
        lemma_product_bound(SAMPLES_PER_TILE as nat, tiles as nat, 20, 0x2_0000_0000);
    }
    let steps: i128 = (SAMPLES_PER_TILE as u128 * tiles) as i128;
    assert(steps == sample_count(unit as int, a, b));
    if steps == 0 {
        return true;
    }
    proof {
        lemma_product_bound(steps as nat, unit as nat, 0x28_0000_0000, 0xffff_ffff_ffff_ffff);
    }
    let denom: i128 = steps * unit as i128;
    assert(denom > 0) by (nonlinear_arith)
        requires
            denom == steps * unit,
            steps > 0,
            unit > 0,
    ;
    let mut i: i128 = 0;
    while i < steps
        invariant
            grid.wf(),
            0 <= i <= steps,
            0 < steps <= 0x28_0000_0000,
            steps == sample_count(unit as int, a, b),
            denom == steps * unit,
            denom > 0,
            dx == b.x - a.x,
            dy == b.y - a.y,
            forall|j: int| 0 <= j < i ==> !#[trigger] blocked_at(grid, unit as int, a, b, j),
        decreases steps - i,
    {
        proof {
            lemma_sample_bound(a.x as int, dx as int, steps as int, i as int);
            lemma_sample_bound(a.y as int, dy as int, steps as int, i as int);
        }
        let numer_x: i128 = a.x as i128 * steps + dx * i;
        let numer_y: i128 = a.y as i128 * steps + dy * i;
        if occupied_at(grid, numer_x, numer_y, denom) {
            assert(blocked_at(grid, unit as int, a, b, i as int));
            return false;
        }
        i = i + 1;
    }
    true
}

/// The numerator of a sample's coordinate stays far inside 128 bits.
proof fn lemma_sample_bound(start: int, delta: int, steps: int, i: int)
    requires
        -0x8000_0000 <= start < 0x8000_0000,
        -0x1_0000_0000 < delta < 0x1_0000_0000,
        0 <= i < steps <= 0x28_0000_0000,
    ensures
        -0x1_0000_0000_0000_0000_0000 < start * steps < 0x1_0000_0000_0000_0000_0000,
        -0x1_0000_0000_0000_0000_0000 < delta * i < 0x1_0000_0000_0000_0000_0000,
{
    assert(-0x1_0000_0000_0000_0000_0000 < start * steps < 0x1_0000_0000_0000_0000_0000)
        by (nonlinear_arith)
        requires
            -0x8000_0000 <= start < 0x8000_0000,
            0 < steps <= 0x28_0000_0000,
    ;
    assert(-0x1_0000_0000_0000_0000_0000 < delta * i < 0x1_0000_0000_0000_0000_0000)
        by (nonlinear_arith)
        requires
            -0x1_0000_0000 < delta < 0x1_0000_0000,
            0 <= i < 0x28_0000_0000,
    ;
}

/// A position is always in sight of itself: the sight line has no samples.
pub proof fn lemma_sight_to_self(grid: &OccupancyGrid, unit: int, p: Point)
    requires
        unit > 0,
    ensures
        line_of_sight(grid, unit, p, p),
{
    assert(p.dist_sq(p) == 0) by (nonlinear_arith)
        requires
            p.dist_sq(p) == (p.x - p.x) * (p.x - p.x) + (p.y - p.y) * (p.y - p.y),
    ;
    assert(crate::roots::floor_sqrt(0) == 0);
    assert(ceil_sqrt(0) == 0);
    assert(0nat % (unit as nat) == 0);
    assert(0nat / (unit as nat) == 0);
    assert(sample_count(unit, p, p) == 0);
}

/// Twice the coordinate of the centre of the tile with the coordinate `tile`:
/// doubled so that the centre of a tile of odd width is a whole number too.
pub open spec fn centre_twice(unit: int, tile: int) -> int {
    2 * tile * unit + unit
}

/// Whether the point with the doubled coordinates `(x2, y2)` lies on the
/// straight segment from `a` to `b`: it lies on the line through both, and
/// its projection falls between them.
pub open spec fn on_segment_twice(a: Point, b: Point, x2: int, y2: int) -> bool {
    let dx = b.x - a.x;
    let dy = b.y - a.y;
    let vx = x2 - 2 * a.x;
    let vy = y2 - 2 * a.y;
    &&& vx * dy == vy * dx
    &&& 0 <= vx * dx + vy * dy <= 2 * (dx * dx + dy * dy)
}

/// The sample next before a point of the sight line, by the point's
/// projection `k2 / (2 * len_sq)` onto the line: among `n` samples it is the
/// sample `k2 * n / (2 * len_sq)`, or the last one for the far end itself.
pub open spec fn sample_before(k2: int, len_sq: int, n: int) -> int {
    let i = (k2 * n) / (2 * len_sq);
    if i >= n {
        n - 1
    } else {
        i
    }
}

/// The sample before a point of the sight line is less than one step short
/// of it.
proof fn lemma_sample_before(k2: int, len_sq: int, n: int)
    requires
        len_sq > 0,
        n > 0,
        0 <= k2 <= 2 * len_sq,
    ensures
        0 <= sample_before(k2, len_sq, n) < n,
        0 <= k2 * n - 2 * sample_before(k2, len_sq, n) * len_sq <= 2 * len_sq,
{
    let total = k2 * n;
    let d = 2 * len_sq;
    let q = total / d;
    let r = total % d;
    assert(total == q * d + r && 0 <= r < d) by (nonlinear_arith)
        requires
            d > 0,
            q == total / d,
            r == total % d,
    ;
    assert(0 <= total <= d * n) by (nonlinear_arith)
        requires
            total == k2 * n,
            0 <= k2 <= d,
            n > 0,
    ;
    assert(0 <= q <= n) by (nonlinear_arith)
        requires
            total == q * d + r,
            0 <= r < d,
            0 <= total <= d * n,
            d > 0,
    ;
    let i = sample_before(k2, len_sq, n);
    if q >= n {
        assert(q == n);
        assert(r == 0) by (nonlinear_arith)
            requires
                total == q * d + r,
                q == n,
                total <= d * n,
                r >= 0,
        ;
        assert(total - 2 * (n - 1) * len_sq == d) by (nonlinear_arith)
            requires
                total == n * d,
                d == 2 * len_sq,
        ;
    } else {
        assert(i == q);
        assert(2 * q * len_sq == q * d) by (nonlinear_arith)
            requires
                d == 2 * len_sq,
        ;
    }
}

/// A sample less than one step short of the centre of a tile lies, in the
/// coordinate looked at, in that tile. The centre is `start + v2 / 2`, the
/// sample `start + delta * i / n`; `k2` and `len_sq` give the place of the
/// centre along the sight line as in `sample_before`.
proof fn lemma_sample_in_tile(
    unit: int,
    n: int,
    start: int,
    delta: int,
    v2: int,
    len_sq: int,
    k2: int,
    i: int,
    tile: int,
)
    requires
        unit > 0,
        n > 0,
        len_sq > 0,
        tile >= 0,
        v2 == centre_twice(unit, tile) - 2 * start,
        v2 * len_sq == k2 * delta,
        0 <= k2 * n - 2 * i * len_sq <= 2 * len_sq,
        n * unit >= 20 * delta,
        n * unit >= -20 * delta,
    ensures
        tile_coord(start * n + delta * i, n * unit) == tile,
{
    let rest = k2 * n - 2 * i * len_sq;
    let gap = v2 * n - 2 * delta * i;
    let shared = delta * i * len_sq;
    assert(gap * len_sq == (v2 * len_sq) * n - 2 * shared) by (nonlinear_arith)
        requires
            gap == v2 * n - 2 * delta * i,
            shared == delta * i * len_sq,
    ;
    assert(delta * rest == (k2 * delta) * n - 2 * shared) by (nonlinear_arith)
        requires
            rest == k2 * n - 2 * i * len_sq,
            shared == delta * i * len_sq,
    ;
    assert(gap * len_sq == delta * rest);
    let span = n * unit;
    assert(span > 0) by (nonlinear_arith)
        requires
            span == n * unit,
            n > 0,
            unit > 0,
    ;
    assert(-span < gap < span) by (nonlinear_arith)
        requires
            gap * len_sq == delta * rest,
            0 <= rest <= 2 * len_sq,
            len_sq > 0,
            span >= 20 * delta,
            span >= -20 * delta,
            span > 0,
    ;
    let numer = start * n + delta * i;
    let floor = tile * span;
    assert(2 * numer == 2 * floor + span - gap) by (nonlinear_arith)
        requires
            numer == start * n + delta * i,
            gap == v2 * n - 2 * delta * i,
            v2 == 2 * tile * unit + unit - 2 * start,
            span == n * unit,
            floor == tile * span,
    ;
    assert(tile * span <= numer < tile * span + span);
    assert(tile * span >= 0) by (nonlinear_arith)
        requires
            tile >= 0,
            span > 0,
    ;
    vstd::arithmetic::div_mod::lemma_fundamental_div_mod_converse(
        numer,
        span,
        tile,
        numer - tile * span,
    );
}

/// A tile's width times the number of samples is at least twenty times the
/// length of the sight line, and so at least twenty times each of its
/// components.
proof fn lemma_samples_cover(unit: int, a: Point, b: Point)
    requires
        unit > 0,
    ensures
        sample_count(unit, a, b) >= 0,
        a != b ==> sample_count(unit, a, b) > 0,
        sample_count(unit, a, b) * unit >= 20 * (b.x - a.x),
        sample_count(unit, a, b) * unit >= -20 * (b.x - a.x),
        sample_count(unit, a, b) * unit >= 20 * (b.y - a.y),
        sample_count(unit, a, b) * unit >= -20 * (b.y - a.y),
{
    let dx = b.x - a.x;
    let dy = b.y - a.y;
    assert(dx * dx >= 0 && dy * dy >= 0) by (nonlinear_arith);
    let len_sq = a.dist_sq(b) as nat;
    let root = ceil_sqrt(len_sq);
    let tiles = ceil_div(root, unit as nat);
    lemma_ceil_sqrt_reaches(len_sq);
    lemma_ceil_div_reaches(root, unit as nat);
    assert(root >= dx && root >= -dx && root >= dy && root >= -dy) by (nonlinear_arith)
        requires
            root >= 0,
            root * root >= dx * dx + dy * dy,
    ;
    assert(sample_count(unit, a, b) * unit == 20 * (tiles * unit)) by (nonlinear_arith)
        requires
            sample_count(unit, a, b) == 20 * tiles,
    ;
    if a != b {
        assert(dx != 0 || dy != 0);
        assert(root > 0);
        assert(tiles > 0) by (nonlinear_arith)
            requires
                tiles * unit >= root,
                root > 0,
                unit > 0,
                tiles >= 0,
        ;
    }
}

/// A sight line between two different positions that passes through the
/// centre of an occupied tile is blocked.
pub proof fn lemma_sight_through_centre(
    grid: &OccupancyGrid,
    unit: int,
    a: Point,
    b: Point,
    col: int,
    row: int,
)
    requires
        unit > 0,
        a != b,
        grid.occupied(col, row),
        on_segment_twice(a, b, centre_twice(unit, col), centre_twice(unit, row)),
    ensures
        !line_of_sight(grid, unit, a, b),
{
    let dx = b.x - a.x;
    let dy = b.y - a.y;
    let vx = centre_twice(unit, col) - 2 * a.x;
    let vy = centre_twice(unit, row) - 2 * a.y;
    let len_sq = dx * dx + dy * dy;
    let k2 = vx * dx + vy * dy;
    let n = sample_count(unit, a, b);
    lemma_samples_cover(unit, a, b);
    assert(len_sq > 0) by (nonlinear_arith)
        requires
            len_sq == dx * dx + dy * dy,
            dx != 0 || dy != 0,
    ;
    let i = sample_before(k2, len_sq, n);
    lemma_sample_before(k2, len_sq, n);
    assert(vx * len_sq == k2 * dx) by (nonlinear_arith)
        requires
            len_sq == dx * dx + dy * dy,
            k2 == vx * dx + vy * dy,
            vx * dy == vy * dx,
    ;
    assert(vy * len_sq == k2 * dy) by (nonlinear_arith)
        requires
            len_sq == dx * dx + dy * dy,
            k2 == vx * dx + vy * dy,
            vx * dy == vy * dx,
    ;
    lemma_sample_in_tile(unit, n, a.x as int, dx, vx, len_sq, k2, i, col);
    lemma_sample_in_tile(unit, n, a.y as int, dy, vy, len_sq, k2, i, row);
    assert(blocked_at(grid, unit, a, b, i));
}

/// The smaller of two coordinates.
pub open spec fn lower(a: int, b: int) -> int {
    if a <= b {
        a
    } else {
        b
    }
}

/// The larger of two coordinates.
pub open spec fn upper(a: int, b: int) -> int {
    if a <= b {
        b
    } else {
        a
    }
}

/// Whether the tile `(col, row)` is touched by the upright rectangle of
/// which `a` and `b` are opposite corners.
pub open spec fn in_box(unit: int, a: Point, b: Point, col: int, row: int) -> bool {
    &&& tile_coord(lower(a.x as int, b.x as int), unit) <= col <= tile_coord(
        upper(a.x as int, b.x as int),
        unit,
    )
    &&& tile_coord(lower(a.y as int, b.y as int), unit) <= row <= tile_coord(
        upper(a.y as int, b.y as int),
        unit,
    )
}

/// Whether no tile is occupied that the upright rectangle between `a` and
/// `b` touches.
pub open spec fn free_between(grid: &OccupancyGrid, unit: int, a: Point, b: Point) -> bool {
    forall|col: int, row: int| in_box(unit, a, b, col, row) ==> !#[trigger] grid.occupied(col, row)
}

/// A sample of a sight line lies, in each coordinate, between the two ends.
proof fn lemma_sample_between(start: int, end: int, n: int, i: int)
    requires
        0 <= i < n,
    ensures
        lower(start, end) * n <= start * n + (end - start) * i <= upper(start, end) * n,
{
    let numer = start * n + (end - start) * i;
    if start <= end {
        assert(start * n <= numer <= end * n) by (nonlinear_arith)
            requires
                numer == start * n + (end - start) * i,
                0 <= i < n,
                start <= end,
        ;
    } else {
        assert(end * n <= numer <= start * n) by (nonlinear_arith)
            requires
                numer == start * n + (end - start) * i,
                0 <= i < n,
                end < start,
        ;
    }
}

/// The tile coordinate of a position between two others lies between
/// theirs: with `low * n <= numer <= high * n`, the tile of `numer / n` lies
/// between the tiles of `low` and `high`.
proof fn lemma_tile_between(low: int, high: int, numer: int, n: int, unit: int)
    requires
        n > 0,
        unit > 0,
        low * n <= numer <= high * n,
    ensures
        tile_coord(low, unit) <= tile_coord(numer, n * unit) <= tile_coord(high, unit),
{
    let span = n * unit;
    assert(span > 0) by (nonlinear_arith)
        requires
            span == n * unit,
            n > 0,
            unit > 0,
    ;
    if numer >= 0 {
        let t = numer / span;
        vstd::arithmetic::div_mod::lemma_fundamental_div_mod(numer, span);
        vstd::arithmetic::div_mod::lemma_mod_bound(numer, span);
        assert(t >= 0) by (nonlinear_arith)
            requires
                numer == span * t + numer % span,
                0 <= numer % span < span,
                numer >= 0,
        ;
        assert(high >= 0) by (nonlinear_arith)
            requires
                numer <= high * n,
                numer >= 0,
                n > 0,
        ;
        let top = high / unit;
        vstd::arithmetic::div_mod::lemma_fundamental_div_mod(high, unit);
        vstd::arithmetic::div_mod::lemma_mod_bound(high, unit);
        assert(t <= top) by (nonlinear_arith)
            requires
                numer == span * t + numer % span,
                0 <= numer % span < span,
                high == unit * top + high % unit,
                0 <= high % unit < unit,
                numer <= high * n,
                span == n * unit,
                n > 0,
                unit > 0,
        ;
        if low >= 0 {
            let bottom = low / unit;
            vstd::arithmetic::div_mod::lemma_fundamental_div_mod(low, unit);
            vstd::arithmetic::div_mod::lemma_mod_bound(low, unit);
            assert(bottom <= t) by (nonlinear_arith)
                requires
                    numer == span * t + numer % span,
                    0 <= numer % span < span,
                    low == unit * bottom + low % unit,
                    0 <= low % unit < unit,
                    low * n <= numer,
                    span == n * unit,
                    n > 0,
                    unit > 0,
            ;
        }
    } else {
        assert(low < 0) by (nonlinear_arith)
            requires
                low * n <= numer,
                numer < 0,
                n > 0,
        ;
        if high >= 0 {
            let top = high / unit;
            vstd::arithmetic::div_mod::lemma_fundamental_div_mod(high, unit);
            vstd::arithmetic::div_mod::lemma_mod_bound(high, unit);
            assert(top >= 0) by (nonlinear_arith)
                requires
                    high == unit * top + high % unit,
                    0 <= high % unit < unit,
                    high >= 0,
            ;
        }
    }
}

/// A sight line is clear where no tile is occupied that the upright
/// rectangle between its two ends touches: every sample lies in that
/// rectangle.
pub proof fn lemma_sight_in_free_box(grid: &OccupancyGrid, unit: int, a: Point, b: Point)
    requires
        unit > 0,
        free_between(grid, unit, a, b),
    ensures
        line_of_sight(grid, unit, a, b),
{
    let n = sample_count(unit, a, b);
    assert forall|i: int| 0 <= i < n implies !#[trigger] blocked_at(grid, unit, a, b, i) by {
        lemma_sample_between(a.x as int, b.x as int, n, i);
        lemma_sample_between(a.y as int, b.y as int, n, i);
        let numer_x = a.x * n + (b.x - a.x) * i;
        let numer_y = a.y * n + (b.y - a.y) * i;
        lemma_tile_between(
            lower(a.x as int, b.x as int),
            upper(a.x as int, b.x as int),
            numer_x,
            n,
            unit,
        );
        lemma_tile_between(
            lower(a.y as int, b.y as int),
            upper(a.y as int, b.y as int),
            numer_y,
            n,
            unit,
        );
        let col = tile_coord(numer_x, n * unit);
        let row = tile_coord(numer_y, n * unit);
        assert(in_box(unit, a, b, col, row));
        assert(!grid.occupied(col, row));
    }
}

} // verus!
