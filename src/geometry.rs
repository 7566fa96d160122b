//! Coordinates on a row-major grid, squared distances between grid cells,
//! and the integer square root used to shape the search disc.
use vstd::arithmetic::div_mod::{
    lemma_div_pos_is_pos,
    lemma_fundamental_div_mod,
    lemma_fundamental_div_mod_converse,
    lemma_mod_bound,
};
use vstd::prelude::*;

verus! {

/// Column of flat index `j` on a grid of width `w`.
pub open spec fn col(j: int, w: int) -> int {
    j % w
}

/// Row of flat index `j` on a grid of width `w`.
pub open spec fn row(j: int, w: int) -> int {
    j / w
}

/// Horizontal offset from cell `a` to cell `b`.
pub open spec fn delta_x(a: int, b: int, w: int) -> int {
    col(b, w) - col(a, w)
}

/// Vertical offset from cell `a` to cell `b`.
pub open spec fn delta_y(a: int, b: int, w: int) -> int {
    row(b, w) - row(a, w)
}

/// Squared Euclidean distance between cells `a` and `b`.
pub open spec fn sq_dist(a: int, b: int, w: int) -> int {
    delta_x(a, b, w) * delta_x(a, b, w) + delta_y(a, b, w) * delta_y(a, b, w)
}

/// A non-negative index decomposes into a column in `0..w` and a non-negative row.
pub proof fn lemma_coords(j: int, w: int)
    requires
        0 <= j,
        0 < w,
    ensures
        0 <= col(j, w) < w,
        0 <= row(j, w),
        j == row(j, w) * w + col(j, w),
{
    lemma_mod_bound(j, w);
    lemma_div_pos_is_pos(j, w);
    lemma_fundamental_div_mod(j, w);
    assert(w * (j / w) == (j / w) * w) by (nonlinear_arith);
}

/// The cell at column `x` and row `y` has exactly those coordinates.
pub proof fn lemma_index_of_coords(x: int, y: int, w: int)
    requires
        0 <= x < w,
        0 <= y,
    ensures
        col(y * w + x, w) == x,
        row(y * w + x, w) == y,
{
    lemma_fundamental_div_mod_converse(y * w + x, w, y, x);
}

/// Two different cells are at squared distance at least one.
pub proof fn lemma_distinct_cells_apart(a: int, b: int, w: int)
    requires
        0 <= a,
        0 <= b,
        0 < w,
        a != b,
    ensures
        sq_dist(a, b, w) >= 1,
{
    let dx = delta_x(a, b, w);
    let dy = delta_y(a, b, w);
    lemma_coords(a, w);
    lemma_coords(b, w);
    assert(dx * dx >= 0 && dy * dy >= 0) by (nonlinear_arith);
    if sq_dist(a, b, w) < 1 {
        assert(dx == 0) by (nonlinear_arith)
            requires dx * dx + dy * dy < 1, dy * dy >= 0;
        assert(dy == 0) by (nonlinear_arith)
            requires dx * dx + dy * dy < 1, dx * dx >= 0;
    }
}

/// Squared distance between flat indices `a` and `b`, or `None` when it does
/// not fit in `usize`.
pub fn dist_sq(a: usize, b: usize, width: usize) -> (r: Option<usize>)
    requires
        width > 0,
    ensures
        r is None <==> sq_dist(a as int, b as int, width as int) > usize::MAX,
        r matches Some(d) ==> d == sq_dist(a as int, b as int, width as int),
{
    let (y1, x1) = (a / width, a % width);
    let (y2, x2) = (b / width, b % width);
    let ddx: usize = if x1 >= x2 { x1 - x2 } else { x2 - x1 };
    let ddy: usize = if y1 >= y2 { y1 - y2 } else { y2 - y1 };
    proof {
        let dx = delta_x(a as int, b as int, width as int);
        let dy = delta_y(a as int, b as int, width as int);
        assert(ddx * ddx == dx * dx) by (nonlinear_arith)
            requires ddx == dx || ddx == -dx;
        assert(ddy * ddy == dy * dy) by (nonlinear_arith)
            requires ddy == dy || ddy == -dy;
        assert(ddx * ddx <= usize::MAX * usize::MAX) by (nonlinear_arith)
            requires 0 <= ddx <= usize::MAX;
        assert(ddy * ddy <= usize::MAX * usize::MAX) by (nonlinear_arith)
            requires 0 <= ddy <= usize::MAX;
        assert(0 <= ddx * ddx) by (nonlinear_arith);
        assert(0 <= ddy * ddy) by (nonlinear_arith);
    }
    let sx: u128 = (ddx as u128) * (ddx as u128);
    let sy: u128 = (ddy as u128) * (ddy as u128);
    if sx > usize::MAX as u128 || sy > usize::MAX as u128 {
        return None;
    }
    let sum: u128 = sx + sy;
    if sum > usize::MAX as u128 {
        return None;
    }
    Some(sum as usize)
}

/// Largest `r` with `r * r <= x`.
pub fn integer_sqrt(x: usize) -> (r: usize)
    requires
        x <= 0x10_0000_0000_0000,
    ensures
        r * r <= x < (r + 1) * (r + 1),
{
    let mut r: usize = 0;
    loop
        invariant
            r * r <= x,
            x <= 0x10_0000_0000_0000,
        decreases x - r,
    {
        assert(r <= 0x400_0000) by (nonlinear_arith)
            requires
                r * r <= x,
                x <= 0x10_0000_0000_0000,
                r >= 0,
        ;
        assert((r + 1) * (r + 1) <= 0x400_0001 * 0x400_0001) by (nonlinear_arith)
            requires 0 <= r <= 0x400_0000;
        let next: u64 = r as u64 + 1;
        if next * next > x as u64 {
            return r;
        }
        assert(r < x) by (nonlinear_arith)
            requires (r + 1) * (r + 1) <= x, r >= 0;
        r = r + 1;
    }
}

/// A cell of a row-major grid of `area` cells and `width` columns.
#[derive(Clone, Copy)]
pub struct Point {
    pub index: usize,
    pub width: usize,
    pub area: usize,
}

impl Point {
    /// Column of this cell.
    pub fn x(self) -> (r: usize)
        requires
            self.width > 0,
        ensures
            r == col(self.index as int, self.width as int),
    {
        self.index % self.width
    }

    /// Row of this cell.
    pub fn y(self) -> (r: usize)
        requires
            self.width > 0,
        ensures
            r == row(self.index as int, self.width as int),
    {
        self.index / self.width
    }

    /// The cell at column `x` and row `y`.
    pub fn new(x: usize, y: usize, width: usize, area: usize) -> (r: Point)
        requires
            y * width + x <= usize::MAX,
        ensures
            r.index == y * width + x,
            r.width == width,
            r.area == area,
    {
        Point { width: width, index: y * width + x, area: area }
    }

    /// The cell `dx` columns and `dy` rows away, or `None` when that lies left
    /// or right of the grid, above it, or past its last cell.
    pub fn displace(self, dx: isize, dy: isize) -> (r: Option<Point>)
        requires
            self.width > 0,
        ensures
            ({
                let nx = col(self.index as int, self.width as int) + dx;
                let ny = row(self.index as int, self.width as int) + dy;
                let inside = 0 <= nx < self.width && 0 <= ny && ny * self.width + nx < self.area;
                &&& inside <==> r is Some
                &&& inside ==> r == Some(
                    Point { index: (ny * self.width + nx) as usize, width: self.width, area: self.area },
                )
            }),
    {
        let x: i128 = self.x() as i128 + dx as i128;
        if x < 0 {
            return None;
        }
        if x >= self.width as i128 {
            return None;
        }
        let x = x as usize;
        let y: i128 = self.y() as i128 + dy as i128;
        if y < 0 {
            return None;
        }
        if y > usize::MAX as i128 {
            assert(y * self.width + x >= y) by (nonlinear_arith)
                requires self.width >= 1, x >= 0, y >= 0;
            return None;
        }
        let y = y as usize;
        proof {
            assert(y * self.width <= usize::MAX * usize::MAX) by (nonlinear_arith)
                requires 0 <= y <= usize::MAX, 0 <= self.width <= usize::MAX;
            assert(0 <= y * self.width) by (nonlinear_arith)
                requires 0 <= y, 0 <= self.width;
        }
        let index: u128 = (y as u128) * (self.width as u128) + x as u128;
        if index >= self.area as u128 {
            return None;
        }
        Some(Point::new(x, y, self.width, self.area))
    }
}

} // verus!
