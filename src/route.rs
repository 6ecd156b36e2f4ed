//! A partial self-avoiding path: the cells it has used and the cell it ends at.
use vstd::prelude::*;

use crate::grid::{can_enter, cell_index, down_of, in_grid, left_of, origin, right_of, up_of};
use crate::point::{lemma_index_in_table, lemma_index_injective, table_fits, Point};

verus! {

/// A partial path from the origin. `visited` holds one mark per grid cell, at the cell's
/// index; `last` is the cell the path ends at.
#[derive(Debug)]
pub struct Route {
    visited: Vec<bool>,
    last: Point,
}

impl Route {
    /// The size of the grid the path lies on.
    pub closed spec fn size(&self) -> int {
        self.last.size as int
    }

    /// The cells the path has used.
    pub closed spec fn cells(&self) -> Set<(int, int)> {
        Set::new(
            |c: (int, int)|
                in_grid(self.size(), c) && self.visited@[cell_index(self.size(), c)],
        )
    }

    /// The cell the path ends at.
    pub closed spec fn head(&self) -> (int, int) {
        self.last@
    }

    /// The table has one mark per grid cell, and both the origin and the head are marked.
    pub closed spec fn wf(&self) -> bool {
        &&& self.last.wf()
        &&& table_fits(self.size())
        &&& self.visited@.len() == (self.size() + 1) * (self.size() + 1)
        &&& self.cells().contains(origin())
        &&& self.cells().contains(self.head())
    }

    /// A well-formed path holds the origin and its head, and only cells of the grid.
    pub proof fn lemma_wf_cells(&self)
        requires
            self.wf(),
        ensures
            self.cells().contains(origin()),
            self.cells().contains(self.head()),
            in_grid(self.size(), self.head()),
            forall|c: (int, int)| #[trigger] self.cells().contains(c) ==> in_grid(self.size(), c),
    {
    }

    /// The path of no moves on the grid of size `size`: it holds the origin alone.
    pub fn new(size: usize) -> (r: Route)
        requires
            table_fits(size as int),
        ensures
            r.wf(),
            r.size() == size,
            r.head() == origin(),
            r.cells() == set![origin()],
    {
        let ghost n = size as int;
        proof {
            assert(n + 1 <= (n + 1) * (n + 1)) by (nonlinear_arith)
                requires
                    0 <= n,
            ;
        }
        let mut visited: Vec<bool> = vec![false; (size + 1) * (size + 1)];
        let start = Point::new(0, 0, size);
        let i = start.index();
        visited[i] = true;
        let r = Route { visited, last: start };
        proof {
            assert(0 * (n + 1) == 0) by (nonlinear_arith);
            assert(cell_index(n, origin()) == 0);
            assert forall|c: (int, int)| r.cells().contains(c) <==> c == origin() by {
                if in_grid(n, c) {
                    lemma_index_in_table(n, c);
                    if cell_index(n, c) == 0 {
                        lemma_index_injective(n, c, origin());
                    }
                }
            }
            assert(r.cells() =~= set![origin()]);
        }
        r
    }

    /// The cell `point_arg`, when it is given and the path has not used it yet.
    pub fn walk(&self, point_arg: Option<Point>) -> (r: Option<Point>)
        requires
            self.wf(),
            point_arg matches Some(p) ==> p.wf() && p.size == self.size(),
        ensures
            r == (match point_arg {
                Some(p) => if self.cells().contains(p@) {
                    None
                } else {
                    Some(p)
                },
                None => None,
            }),
    {
        if let Some(point) = point_arg {
            if !self.visited[point.index()] {
                return Some(point);
            }
        }
        None
    }

    /// The cell one step up, when it lies on the grid and the path has not used it.
    pub fn walk_up(&self) -> (r: Option<Point>)
        requires
            self.wf(),
        ensures
            r.is_some() == can_enter(self.size(), self.cells(), up_of(self.head())),
            r matches Some(p) ==> p@ == up_of(self.head()) && p.size == self.size() && p.wf(),
    {
        self.walk(self.last.up())
    }

    /// The cell one step down, when it lies on the grid and the path has not used it.
    pub fn walk_down(&self) -> (r: Option<Point>)
        requires
            self.wf(),
        ensures
            r.is_some() == can_enter(self.size(), self.cells(), down_of(self.head())),
            r matches Some(p) ==> p@ == down_of(self.head()) && p.size == self.size() && p.wf(),
    {
        self.walk(self.last.down())
    }

    /// The cell one step right, when it lies on the grid and the path has not used it.
    pub fn walk_right(&self) -> (r: Option<Point>)
        requires
            self.wf(),
        ensures
            r.is_some() == can_enter(self.size(), self.cells(), right_of(self.head())),
            r matches Some(p) ==> p@ == right_of(self.head()) && p.size == self.size() && p.wf(),
    {
        self.walk(self.last.right())
    }

    /// The cell one step left, when it lies on the grid and the path has not used it.
    pub fn walk_left(&self) -> (r: Option<Point>)
        requires
            self.wf(),
        ensures
            r.is_some() == can_enter(self.size(), self.cells(), left_of(self.head())),
            r matches Some(p) ==> p@ == left_of(self.head()) && p.size == self.size() && p.wf(),
    {
        self.walk(self.last.left())
    }

    /// A new path: this one extended by `point`, which becomes its head. This path is
    /// left as it was.
    pub fn extended(&self, point: Point) -> (r: Route)
        requires
            self.wf(),
            point.wf(),
            point.size == self.size(),
        ensures
            r.wf(),
            r.size() == self.size(),
            r.head() == point@,
            r.cells() == self.cells().insert(point@),
    {
        let ghost n = self.size();
        let mut visited = self.visited.clone();
        proof {
            assert(visited@ =~= self.visited@);
        }
        let i = point.index();
        visited[i] = true;
        let r = Route { visited, last: point };
        proof {
            assert forall|c: (int, int)| r.cells().contains(c) <==> self.cells().insert(
                point@,
            ).contains(c) by {
                if in_grid(n, c) {
                    lemma_index_in_table(n, c);
                    if cell_index(n, c) == i {
                        lemma_index_injective(n, c, point@);
                    }
                }
            }
            assert(r.cells() =~= self.cells().insert(point@));
        }
        r
    }

    /// The cell the path ends at.
    pub fn last(&self) -> (p: Point)
        requires
            self.wf(),
        ensures
            p@ == self.head(),
            p.size == self.size(),
            p.wf(),
    {
        self.last
    }
}

} // verus!
