//! Exhaustive depth-first enumeration of the self-avoiding paths, over an explicit stack.
use vstd::prelude::*;

use crate::grid::{
    can_enter, down_of, left_of, path_count, right_of, search_size, up_of, walks,
};
use crate::paths::{lemma_path_count_is_number_of_paths, paths};
use crate::point::{table_fits, Point};
use crate::route::Route;

verus! {

/// The number of completions still owed by the routes of `s`.
pub open spec fn pending_walks(s: Seq<Route>) -> nat
    decreases s.len(),
{
    if s.len() == 0 {
        0
    } else {
        let r = s.last();
        pending_walks(s.drop_last()) + walks(r.size(), r.cells(), r.head())
    }
}

/// The number of routes the search will still examine, starting from those of `s`.
pub open spec fn pending_search(s: Seq<Route>) -> nat
    decreases s.len(),
{
    if s.len() == 0 {
        0
    } else {
        let r = s.last();
        pending_search(s.drop_last()) + search_size(r.size(), r.cells(), r.head())
    }
}

proof fn lemma_pending_push(s: Seq<Route>, r: Route)
    ensures
        pending_walks(s.push(r)) == pending_walks(s) + walks(r.size(), r.cells(), r.head()),
        pending_search(s.push(r)) == pending_search(s) + search_size(
            r.size(),
            r.cells(),
            r.head(),
        ),
{
    assert(s.push(r).drop_last() =~= s);
}

/// Every route of `s` is well formed and lies on the grid of size `n`.
pub open spec fn all_on_grid(s: Seq<Route>, n: int) -> bool {
    forall|i: int| 0 <= i < s.len() ==> #[trigger] s[i].wf() && s[i].size() == n
}

/// Pushes the extension of `route` by `next` onto `stack`, when a cell is given.
fn push_extension(stack: &mut Vec<Route>, route: &Route, next: Option<Point>)
    requires
        route.wf(),
        all_on_grid(old(stack)@, route.size()),
        next matches Some(p) ==> p.wf() && p.size == route.size(),
    ensures
        all_on_grid(final(stack)@, route.size()),
        pending_walks(final(stack)@) == pending_walks(old(stack)@) + match next {
            Some(p) => walks(route.size(), route.cells().insert(p@), p@),
            None => 0,
        },
        pending_search(final(stack)@) == pending_search(old(stack)@) + match next {
            Some(p) => search_size(route.size(), route.cells().insert(p@), p@),
            None => 0,
        },
{
    if let Some(point) = next {
        let r = route.extended(point);
        stack.push(r);
        proof {
            lemma_pending_push(old(stack)@, r);
        }
    }
}

/// Counts the self-avoiding paths from `(0, 0)` to `(size, size)` on the grid of size
/// `size`, moving one unit along an axis at a time. The result is `None` exactly when that
/// number does not fit in a `u64`.
///
/// The search keeps a stack of partial paths. It pops one at a time: a path at the goal is
/// counted and dropped; any other is replaced by its extensions into each free neighbour,
/// tried right, left, up, then down.
pub fn count_paths(size: usize) -> (r: Option<u64>)
    requires
        table_fits(size as int),
    ensures
        r == (if paths(size as int).len() <= u64::MAX {
            Some(paths(size as int).len() as u64)
        } else {
            None
        }),
{
    proof {
        lemma_path_count_is_number_of_paths(size as int);
    }
    let ghost n = size as int;
    let mut result: u64 = 0;
    let mut stack: Vec<Route> = Vec::new();
    stack.push(Route::new(size));
    proof {
        lemma_pending_push(seq![], stack@.last());
        assert(stack@ =~= seq![].push(stack@.last()));
    }
    let goal = Point::new(size, size, size);
    while stack.len() > 0
        invariant
            n == size,
            goal@ == crate::grid::goal(n),
            goal.size == size,
            all_on_grid(stack@, n),
            result + pending_walks(stack@) == path_count(n),
            path_count(n) == paths(n).len(),
        decreases pending_search(stack@),
    {
        let ghost before = stack@;
        let route = stack.pop().unwrap();
        proof {
            assert(stack@ =~= before.drop_last());
            assert(route == before.last());
            assert(route.wf() && route.size() == n);
        }
        let last = route.last();
        if last == goal {
            if result == u64::MAX {
                return None;
            }
            result = result + 1;
        } else {
            let ghost vis = route.cells();
            let ghost head = route.head();
            let ghost s0 = stack@;
            let right = route.walk_right();
            push_extension(&mut stack, &route, right);
            let ghost s1 = stack@;
            let left = route.walk_left();
            push_extension(&mut stack, &route, left);
            let ghost s2 = stack@;
            let up = route.walk_up();
            push_extension(&mut stack, &route, up);
            let ghost s3 = stack@;
            let down = route.walk_down();
            push_extension(&mut stack, &route, down);
            proof {
                if head == crate::grid::goal(n) {
                    assert(last == goal);
                }
                assert(pending_walks(before) == pending_walks(s0) + walks(n, vis, head));
                assert(pending_search(before) == pending_search(s0) + search_size(n, vis, head));
                let (r, l, u, d) = (right_of(head), left_of(head), up_of(head), down_of(head));
                assert(pending_walks(s1) == pending_walks(s0) + if can_enter(n, vis, r) {
                    walks(n, vis.insert(r), r)
                } else {
                    0
                });
                assert(pending_walks(s2) == pending_walks(s1) + if can_enter(n, vis, l) {
                    walks(n, vis.insert(l), l)
                } else {
                    0
                });
                assert(pending_walks(s3) == pending_walks(s2) + if can_enter(n, vis, u) {
                    walks(n, vis.insert(u), u)
                } else {
                    0
                });
                assert(pending_walks(stack@) == pending_walks(s3) + if can_enter(n, vis, d) {
                    walks(n, vis.insert(d), d)
                } else {
                    0
                });
                assert(pending_search(s1) == pending_search(s0) + if can_enter(n, vis, r) {
                    search_size(n, vis.insert(r), r)
                } else {
                    0
                });
                assert(pending_search(s2) == pending_search(s1) + if can_enter(n, vis, l) {
                    search_size(n, vis.insert(l), l)
                } else {
                    0
                });
                assert(pending_search(s3) == pending_search(s2) + if can_enter(n, vis, u) {
                    search_size(n, vis.insert(u), u)
                } else {
                    0
                });
                assert(pending_search(stack@) == pending_search(s3) + if can_enter(n, vis, d) {
                    search_size(n, vis.insert(d), d)
                } else {
                    0
                });
            }
        }
    }
    Some(result)
}

} // verus!
