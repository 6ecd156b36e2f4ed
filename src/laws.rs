//! Properties of the count that follow from the model.
use vstd::prelude::*;

use crate::grid::{
    can_enter, down_of, free_count, goal, in_grid, lemma_enter_decreases, left_of, origin,
    path_count, right_of, search_size, up_of, walks,
};
use crate::paths::{adjacent, is_path};

verus! {

/// The reflection of a cell across the diagonal: the axes swap roles.
pub open spec fn mirror(c: (int, int)) -> (int, int) {
    (c.1, c.0)
}

/// The reflection of every cell of `vis` across the diagonal.
pub open spec fn mirror_set(vis: Set<(int, int)>) -> Set<(int, int)> {
    Set::new(|c: (int, int)| vis.contains(mirror(c)))
}

proof fn lemma_mirror_enter(n: int, vis: Set<(int, int)>, c: (int, int))
    ensures
        can_enter(n, mirror_set(vis), mirror(c)) == can_enter(n, vis, c),
        mirror_set(vis).insert(mirror(c)) == mirror_set(vis.insert(c)),
{
    assert(mirror(mirror(c)) == c);
    assert(mirror_set(vis).insert(mirror(c)) =~= mirror_set(vis.insert(c)));
}

/// Reflecting a partial path across the diagonal does not change the number of ways to
/// complete it: each move right, left, up or down becomes a move up, down, right or left.
pub proof fn lemma_walks_mirror(n: int, vis: Set<(int, int)>, head: (int, int))
    ensures
        walks(n, mirror_set(vis), mirror(head)) == walks(n, vis, head),
    decreases free_count(n, vis),
{
    if head != goal(n) {
        let (r, l, u, d) = (right_of(head), left_of(head), up_of(head), down_of(head));
        assert(right_of(mirror(head)) == mirror(u));
        assert(left_of(mirror(head)) == mirror(d));
        assert(up_of(mirror(head)) == mirror(r));
        assert(down_of(mirror(head)) == mirror(l));
        lemma_mirror_enter(n, vis, r);
        lemma_mirror_enter(n, vis, l);
        lemma_mirror_enter(n, vis, u);
        lemma_mirror_enter(n, vis, d);
        if can_enter(n, vis, r) {
            lemma_enter_decreases(n, vis, r);
            lemma_walks_mirror(n, vis.insert(r), r);
        }
        if can_enter(n, vis, l) {
            lemma_enter_decreases(n, vis, l);
            lemma_walks_mirror(n, vis.insert(l), l);
        }
        if can_enter(n, vis, u) {
            lemma_enter_decreases(n, vis, u);
            lemma_walks_mirror(n, vis.insert(u), u);
        }
        if can_enter(n, vis, d) {
            lemma_enter_decreases(n, vis, d);
            lemma_walks_mirror(n, vis.insert(d), d);
        }
    }
}

/// On a grid of size at least one, as many paths start with a step right as start with a
/// step up, and together they are all the paths.
pub proof fn lemma_first_step_symmetric(n: int)
    requires
        n >= 1,
    ensures
        walks(n, set![origin(), (1int, 0int)], (1, 0)) == walks(
            n,
            set![origin(), (0int, 1int)],
            (0, 1),
        ),
        path_count(n) == 2 * walks(n, set![origin(), (1int, 0int)], (1, 0)),
{
    let start = set![origin()];
    lemma_walks_mirror(n, start.insert((1, 0)), (1, 0));
    assert(mirror_set(start.insert((1, 0))) =~= start.insert((0, 1)));
    assert(start.insert((1, 0)) =~= set![origin(), (1int, 0int)]);
    assert(start.insert((0, 1)) =~= set![origin(), (0int, 1int)]);
    assert(!in_grid(n, left_of(origin())));
    assert(!in_grid(n, down_of(origin())));
}

/// Reflecting a self-avoiding path across the diagonal gives a self-avoiding path.
pub proof fn lemma_path_mirror(n: int, p: Seq<(int, int)>)
    requires
        is_path(n, p),
    ensures
        is_path(n, p.map_values(|c: (int, int)| mirror(c))),
{
    let m = p.map_values(|c: (int, int)| mirror(c));
    assert forall|i: int| 0 <= i < m.len() implies #[trigger] in_grid(n, m[i]) by {
        assert(in_grid(n, p[i]));
    }
    assert forall|i: int| 0 <= i < m.len() - 1 implies #[trigger] adjacent(m[i], m[i + 1]) by {
        assert(adjacent(p[i], p[i + 1]));
    }
    assert forall|i: int, j: int| 0 <= i < m.len() && 0 <= j < m.len() && i != j implies m[i]
        != m[j] by {
        assert(p[i] != p[j]);
    }
}

/// A path that has reached the goal counts exactly once and is not extended further.
pub proof fn lemma_goal_is_terminal(n: int, vis: Set<(int, int)>)
    ensures
        walks(n, vis, goal(n)) == 1,
        search_size(n, vis, goal(n)) == 1,
{
}

/// On the grid of one cell the origin is the goal, and the path of no moves is the only
/// path.
pub proof fn lemma_single_cell_grid()
    ensures
        path_count(0) == 1,
{
}

} // verus!
