//! A cell of the grid together with the size of the grid it lies on.
use vstd::prelude::*;

use vstd::arithmetic::div_mod::lemma_fundamental_div_mod;

use crate::grid::{cell_index, down_of, in_grid, left_of, right_of, up_of};

verus! {

/// The cell `(x, y)` of the grid whose coordinates run from `0` to `size`.
#[derive(PartialEq, Eq, Structural, Copy, Clone, Debug)]
pub struct Point {
    pub x: usize,
    pub y: usize,
    pub size: usize,
}

impl View for Point {
    type V = (int, int);

    open spec fn view(&self) -> (int, int) {
        (self.x as int, self.y as int)
    }
}

/// The table of visited marks for a grid of size `size` fits in memory addresses.
pub open spec fn table_fits(size: int) -> bool {
    (size + 1) * (size + 1) <= usize::MAX
}

/// The index of every grid cell lies in `[0, (n + 1)^2)`.
pub proof fn lemma_index_in_table(n: int, c: (int, int))
    requires
        in_grid(n, c),
    ensures
        0 <= cell_index(n, c) < (n + 1) * (n + 1),
{
    assert(0 <= c.0 * (n + 1) <= n * (n + 1)) by (nonlinear_arith)
        requires
            0 <= c.0 <= n,
    ;
    assert(n * (n + 1) + n + 1 == (n + 1) * (n + 1)) by (nonlinear_arith);
}

/// Distinct grid cells have distinct indices.
pub proof fn lemma_index_injective(n: int, a: (int, int), b: (int, int))
    requires
        in_grid(n, a),
        in_grid(n, b),
        cell_index(n, a) == cell_index(n, b),
    ensures
        a == b,
{
    if a.0 < b.0 {
        assert((a.0 + 1) * (n + 1) <= b.0 * (n + 1)) by (nonlinear_arith)
            requires
                a.0 + 1 <= b.0,
                0 <= n,
        ;
        assert((a.0 + 1) * (n + 1) == a.0 * (n + 1) + n + 1) by (nonlinear_arith);
    } else if b.0 < a.0 {
        assert((b.0 + 1) * (n + 1) <= a.0 * (n + 1)) by (nonlinear_arith)
            requires
                b.0 + 1 <= a.0,
                0 <= n,
        ;
        assert((b.0 + 1) * (n + 1) == b.0 * (n + 1) + n + 1) by (nonlinear_arith);
    }
}

/// Every position of the table is the index of some grid cell.
pub proof fn lemma_index_onto(n: int, i: int)
    requires
        0 <= n,
        0 <= i < (n + 1) * (n + 1),
    ensures
        in_grid(n, (i / (n + 1), i % (n + 1))),
        cell_index(n, (i / (n + 1), i % (n + 1))) == i,
{
    let d = n + 1;
    lemma_fundamental_div_mod(i, d);
    let q = i / d;
    let m = i % d;
    assert(0 <= m < d);
    assert(0 <= q <= n) by (nonlinear_arith)
        requires
            i == d * q + m,
            0 <= m < d,
            0 <= i < d * d,
            d == n + 1,
            0 <= n,
    ;
    assert(q * d == d * q) by (nonlinear_arith);
}

impl Point {
    /// The point lies on its grid.
    pub open spec fn wf(&self) -> bool {
        self.x <= self.size && self.y <= self.size
    }

    /// The cell `(x, y)` of the grid of size `size`.
    pub fn new(x: usize, y: usize, size: usize) -> (p: Point)
        requires
            x <= size,
            y <= size,
        ensures
            p.x == x,
            p.y == y,
            p.size == size,
            p.wf(),
    {
        Point { x, y, size }
    }

    /// The position `x * (size + 1) + y` of the cell in the flat table of visited marks.
    pub fn index(&self) -> (i: usize)
        requires
            self.wf(),
            table_fits(self.size as int),
        ensures
            i as int == cell_index(self.size as int, self@),
            i < (self.size + 1) * (self.size + 1),
    {
        proof {
            let n = self.size as int;
            lemma_index_in_table(n, self@);
            assert(n + 1 <= (n + 1) * (n + 1)) by (nonlinear_arith)
                requires
                    0 <= n,
            ;
        }
        self.x * (self.size + 1) + self.y
    }

    /// The cell one step in the `+x` direction, if it lies on the grid.
    pub fn right(&self) -> (r: Option<Point>)
        requires
            self.wf(),
        ensures
            r.is_some() == in_grid(self.size as int, right_of(self@)),
            r matches Some(p) ==> p@ == right_of(self@) && p.size == self.size && p.wf(),
    {
        if self.x < self.size {
            Some(Point::new(self.x + 1, self.y, self.size))
        } else {
            None
        }
    }

    /// The cell one step in the `-x` direction, if it lies on the grid.
    pub fn left(&self) -> (r: Option<Point>)
        requires
            self.wf(),
        ensures
            r.is_some() == in_grid(self.size as int, left_of(self@)),
            r matches Some(p) ==> p@ == left_of(self@) && p.size == self.size && p.wf(),
    {
        if self.x > 0 {
            Some(Point::new(self.x - 1, self.y, self.size))
        } else {
            None
        }
    }

    /// The cell one step in the `+y` direction, if it lies on the grid.
    pub fn up(&self) -> (r: Option<Point>)
        requires
            self.wf(),
        ensures
            r.is_some() == in_grid(self.size as int, up_of(self@)),
            r matches Some(p) ==> p@ == up_of(self@) && p.size == self.size && p.wf(),
    {
        if self.y < self.size {
            Some(Point::new(self.x, self.y + 1, self.size))
        } else {
            None
        }
    }

    /// The cell one step in the `-y` direction, if it lies on the grid.
    pub fn down(&self) -> (r: Option<Point>)
        requires
            self.wf(),
        ensures
            r.is_some() == in_grid(self.size as int, down_of(self@)),
            r matches Some(p) ==> p@ == down_of(self@) && p.size == self.size && p.wf(),
    {
        if self.y > 0 {
            Some(Point::new(self.x, self.y - 1, self.size))
        } else {
            None
        }
    }
}

} // verus!
