//! The mathematical model: cells, moves, and the number of self-avoiding completions.
use vstd::prelude::*;

verus! {

/// A cell lies on the grid of size `n` when both coordinates are in `[0, n]`.
pub open spec fn in_grid(n: int, c: (int, int)) -> bool {
    0 <= c.0 <= n && 0 <= c.1 <= n
}

/// The cell one step in the `+x` direction.
pub open spec fn right_of(c: (int, int)) -> (int, int) {
    (c.0 + 1, c.1)
}

/// The cell one step in the `-x` direction.
pub open spec fn left_of(c: (int, int)) -> (int, int) {
    (c.0 - 1, c.1)
}

/// The cell one step in the `+y` direction.
pub open spec fn up_of(c: (int, int)) -> (int, int) {
    (c.0, c.1 + 1)
}

/// The cell one step in the `-y` direction.
pub open spec fn down_of(c: (int, int)) -> (int, int) {
    (c.0, c.1 - 1)
}

/// The corner every path starts from.
pub open spec fn origin() -> (int, int) {
    (0, 0)
}

/// The corner every path ends at.
pub open spec fn goal(n: int) -> (int, int) {
    (n, n)
}

/// The position of a cell in the flat table of visited marks.
pub open spec fn cell_index(n: int, c: (int, int)) -> int {
    c.0 * (n + 1) + c.1
}

/// A path whose cells are `vis` may move into `c`.
pub open spec fn can_enter(n: int, vis: Set<(int, int)>, c: (int, int)) -> bool {
    in_grid(n, c) && !vis.contains(c)
}

/// The number of cells `(x, y')` with `y <= y' <= n` that are not in `vis`.
pub open spec fn free_in_row(n: int, vis: Set<(int, int)>, x: int, y: int) -> nat
    decreases n + 1 - y,
{
    if y > n {
        0
    } else {
        (if vis.contains((x, y)) { 0nat } else { 1nat }) + free_in_row(n, vis, x, y + 1)
    }
}

/// The number of grid cells `(x', y)` with `x <= x'` that are not in `vis`.
pub open spec fn free_from(n: int, vis: Set<(int, int)>, x: int) -> nat
    decreases n + 1 - x,
{
    if x > n {
        0
    } else {
        free_in_row(n, vis, x, 0) + free_from(n, vis, x + 1)
    }
}

/// The number of grid cells that are not in `vis`.
pub open spec fn free_count(n: int, vis: Set<(int, int)>) -> nat {
    free_from(n, vis, 0)
}

proof fn lemma_row_insert(n: int, vis: Set<(int, int)>, c: (int, int), x: int, y: int)
    requires
        !vis.contains(c),
    ensures
        free_in_row(n, vis.insert(c), x, y) + (if x == c.0 && y <= c.1 <= n { 1int } else { 0int })
            == free_in_row(n, vis, x, y),
    decreases n + 1 - y,
{
    if y <= n {
        lemma_row_insert(n, vis, c, x, y + 1);
    }
}

proof fn lemma_rows_insert(n: int, vis: Set<(int, int)>, c: (int, int), x: int)
    requires
        !vis.contains(c),
    ensures
        free_from(n, vis.insert(c), x) + (if x <= c.0 <= n && 0 <= c.1 <= n { 1int } else { 0int })
            == free_from(n, vis, x),
    decreases n + 1 - x,
{
    if x <= n {
        lemma_row_insert(n, vis, c, x, 0);
        lemma_rows_insert(n, vis, c, x + 1);
    }
}

/// Entering a free grid cell leaves one free cell fewer.
pub proof fn lemma_enter_decreases(n: int, vis: Set<(int, int)>, c: (int, int))
    requires
        can_enter(n, vis, c),
    ensures
        free_count(n, vis.insert(c)) + 1 == free_count(n, vis),
{
    lemma_rows_insert(n, vis, c, 0);
}

/// The number of self-avoiding ways to continue a path whose cells are `vis` and whose
/// last cell is `head` until it reaches the goal. A path at the goal ends there, so it
/// counts once; otherwise each move right, left, up or down into a free grid cell
/// contributes the completions of the path extended by that cell.
pub open spec fn walks(n: int, vis: Set<(int, int)>, head: (int, int)) -> nat
    decreases free_count(n, vis),
    via walks_decreases
{
    if head == goal(n) {
        1
    } else {
        let r = right_of(head);
        let l = left_of(head);
        let u = up_of(head);
        let d = down_of(head);
        (if can_enter(n, vis, r) { walks(n, vis.insert(r), r) } else { 0 })
            + (if can_enter(n, vis, l) { walks(n, vis.insert(l), l) } else { 0 })
            + (if can_enter(n, vis, u) { walks(n, vis.insert(u), u) } else { 0 })
            + (if can_enter(n, vis, d) { walks(n, vis.insert(d), d) } else { 0 })
    }
}

#[via_fn]
proof fn walks_decreases(n: int, vis: Set<(int, int)>, head: (int, int)) {
    assert forall|c: (int, int)| can_enter(n, vis, c) implies free_count(n, vis.insert(c))
        < free_count(n, vis) by {
        lemma_enter_decreases(n, vis, c);
    }
}

/// The number of partial paths the search examines from the path with cells `vis` and head
/// `head`: that path itself, and, unless it is at the goal, all those examined from each
/// of its one-step extensions.
pub open spec fn search_size(n: int, vis: Set<(int, int)>, head: (int, int)) -> nat
    decreases free_count(n, vis),
    via search_size_decreases
{
    if head == goal(n) {
        1
    } else {
        let r = right_of(head);
        let l = left_of(head);
        let u = up_of(head);
        let d = down_of(head);
        1 + (if can_enter(n, vis, r) { search_size(n, vis.insert(r), r) } else { 0 })
            + (if can_enter(n, vis, l) { search_size(n, vis.insert(l), l) } else { 0 })
            + (if can_enter(n, vis, u) { search_size(n, vis.insert(u), u) } else { 0 })
            + (if can_enter(n, vis, d) { search_size(n, vis.insert(d), d) } else { 0 })
    }
}

#[via_fn]
proof fn search_size_decreases(n: int, vis: Set<(int, int)>, head: (int, int)) {
    assert forall|c: (int, int)| can_enter(n, vis, c) implies free_count(n, vis.insert(c))
        < free_count(n, vis) by {
        lemma_enter_decreases(n, vis, c);
    }
}

/// The number of self-avoiding paths from the origin to the goal on the grid of size `n`.
pub open spec fn path_count(n: int) -> nat {
    walks(n, set![origin()], origin())
}

} // verus!
