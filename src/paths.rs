//! Self-avoiding paths as sequences of cells, and how many of them there are.
use vstd::prelude::*;
use vstd::relations::injective_on;
use vstd::set_lib::{lemma_map_size, lemma_set_disjoint_lens};

use crate::grid::{
    can_enter, down_of, free_count, goal, in_grid, lemma_enter_decreases, left_of, origin,
    path_count, right_of, up_of, walks,
};

verus! {

/// `b` is one unit step from `a` along an axis.
pub open spec fn adjacent(a: (int, int), b: (int, int)) -> bool {
    b == right_of(a) || b == left_of(a) || b == up_of(a) || b == down_of(a)
}

/// `p` starts at the origin, stays on the grid of size `n`, moves one unit step along an
/// axis at a time, and never enters a cell twice.
pub open spec fn is_walk(n: int, p: Seq<(int, int)>) -> bool {
    &&& p.len() > 0
    &&& p[0] == origin()
    &&& forall|i: int| 0 <= i < p.len() ==> #[trigger] in_grid(n, p[i])
    &&& forall|i: int| 0 <= i < p.len() - 1 ==> #[trigger] adjacent(p[i], p[i + 1])
    &&& p.no_duplicates()
}

/// `p` is a self-avoiding path from the origin to the goal on the grid of size `n`.
pub open spec fn is_path(n: int, p: Seq<(int, int)>) -> bool {
    is_walk(n, p) && p.last() == goal(n)
}

/// All self-avoiding paths from the origin to the goal on the grid of size `n`.
pub open spec fn paths(n: int) -> Set<Seq<(int, int)>> {
    Set::new(|p: Seq<(int, int)>| is_path(n, p))
}

/// The ways to finish the walk `q` into a path: the sequences `t` with `q + t` a path.
spec fn completions(n: int, q: Seq<(int, int)>) -> Set<Seq<(int, int)>> {
    Set::new(|t: Seq<(int, int)>| is_path(n, q + t))
}

spec fn prepend(c: (int, int)) -> spec_fn(Seq<(int, int)>) -> Seq<(int, int)> {
    |t: Seq<(int, int)>| seq![c] + t
}

/// The completions of `q` whose first cell is `c`.
spec fn branch(n: int, q: Seq<(int, int)>, c: (int, int)) -> Set<Seq<(int, int)>> {
    if can_enter(n, q.to_set(), c) {
        completions(n, q.push(c)).map(prepend(c))
    } else {
        Set::empty()
    }
}

proof fn lemma_push_walk(n: int, q: Seq<(int, int)>, c: (int, int))
    requires
        is_walk(n, q),
        can_enter(n, q.to_set(), c),
        adjacent(q.last(), c),
    ensures
        is_walk(n, q.push(c)),
        q.push(c).to_set() == q.to_set().insert(c),
        q.push(c).last() == c,
{
    let p = q.push(c);
    assert forall|i: int| 0 <= i < p.len() - 1 implies #[trigger] adjacent(p[i], p[i + 1]) by {
        if i < q.len() - 1 {
            assert(adjacent(q[i], q[i + 1]));
        }
    }
    assert forall|i: int| 0 <= i < p.len() implies #[trigger] in_grid(n, p[i]) by {
        if i < q.len() {
            assert(in_grid(n, q[i]));
        }
    }
    assert forall|i: int, j: int| 0 <= i < p.len() && 0 <= j < p.len() && i != j implies p[i]
        != p[j] by {
        if i == q.len() && j < q.len() {
            assert(q.contains(q[j]));
        } else if j == q.len() && i < q.len() {
            assert(q.contains(q[i]));
        }
    }
    assert forall|x: (int, int)| p.contains(x) <==> q.to_set().insert(c).contains(x) by {
        if q.contains(x) {
            let i = choose|i: int| 0 <= i < q.len() && q[i] == x;
            assert(p[i] == x);
        }
        if x == c {
            assert(p[q.len() as int] == c);
        }
    }
    assert(p.to_set() =~= q.to_set().insert(c));
}

proof fn lemma_branch(n: int, q: Seq<(int, int)>, c: (int, int))
    requires
        can_enter(n, q.to_set(), c) ==> completions(n, q.push(c)).finite(),
    ensures
        branch(n, q, c).finite(),
        branch(n, q, c).len() == if can_enter(n, q.to_set(), c) {
            completions(n, q.push(c)).len()
        } else {
            0
        },
        forall|t: Seq<(int, int)>| #[trigger]
            branch(n, q, c).contains(t) ==> t.len() > 0 && t[0] == c,
{
    if can_enter(n, q.to_set(), c) {
        let s = completions(n, q.push(c));
        let f = prepend(c);
        assert forall|t1: Seq<(int, int)>, t2: Seq<(int, int)>|
            s.contains(t1) && s.contains(t2) && #[trigger] f(t1) == #[trigger] f(t2) implies t1
            == t2 by {
            assert(t1 =~= f(t1).drop_first());
            assert(t2 =~= f(t2).drop_first());
        }
        assert(injective_on(f, s));
        lemma_map_size(s, s.map(f), f);
        assert forall|t: Seq<(int, int)>| #[trigger]
            branch(n, q, c).contains(t) implies t.len() > 0 && t[0] == c by {
            let t2 = choose|t2: Seq<(int, int)>| s.contains(t2) && f(t2) == t;
            assert(t == seq![c] + t2);
        }
    } else {
        assert(branch(n, q, c).len() == 0);
    }
}

/// Every completion of a walk that is not at the goal starts with a free neighbour of its
/// last cell, and each free neighbour leads to the completions of the longer walk.
proof fn lemma_completions_split(n: int, q: Seq<(int, int)>)
    requires
        is_walk(n, q),
        q.last() != goal(n),
    ensures
        completions(n, q) == branch(n, q, right_of(q.last())) + branch(n, q, left_of(q.last()))
            + branch(n, q, up_of(q.last())) + branch(n, q, down_of(q.last())),
{
    let head = q.last();
    let (r, l, u, d) = (right_of(head), left_of(head), up_of(head), down_of(head));
    let all = branch(n, q, r) + branch(n, q, l) + branch(n, q, u) + branch(n, q, d);
    assert forall|t: Seq<(int, int)>| completions(n, q).contains(t) implies all.contains(t) by {
        let p = q + t;
        if t.len() == 0 {
            assert(p =~= q);
        }
        let c = t[0];
        let rest = t.drop_first();
        let k = q.len() - 1;
        assert(adjacent(p[k], p[k + 1]));
        assert(in_grid(n, p[k + 1]));
        if q.contains(c) {
            let j = choose|j: int| 0 <= j < q.len() && q[j] == c;
            assert(p[j] == p[k + 1]);
        }
        lemma_push_walk(n, q, c);
        assert(q.push(c) + rest =~= p);
        assert(t =~= seq![c] + rest);
        assert(completions(n, q.push(c)).contains(rest));
        assert(prepend(c)(rest) == t);
    }
    assert forall|t: Seq<(int, int)>| all.contains(t) implies completions(n, q).contains(t) by {
        let c = t[0];
        let s = completions(n, q.push(c));
        let rest = choose|rest: Seq<(int, int)>| s.contains(rest) && prepend(c)(rest) == t;
        assert(q.push(c) + rest =~= q + t);
    }
    assert(completions(n, q) =~= all);
}

/// The completions of a walk are as many as `walks` counts from its cells and last cell.
proof fn lemma_completions_count(n: int, q: Seq<(int, int)>)
    requires
        is_walk(n, q),
    ensures
        completions(n, q).finite(),
        completions(n, q).len() == walks(n, q.to_set(), q.last()),
    decreases free_count(n, q.to_set()),
{
    let vis = q.to_set();
    let head = q.last();
    if head == goal(n) {
        assert forall|t: Seq<(int, int)>| completions(n, q).contains(t) <==> t == Seq::<
            (int, int),
        >::empty() by {
            let p = q + t;
            if t.len() == 0 {
                assert(p =~= q);
                assert(t =~= Seq::<(int, int)>::empty());
            } else if is_path(n, p) {
                assert(p[q.len() - 1] == p[p.len() - 1]);
            }
        }
        assert(completions(n, q) =~= set![Seq::<(int, int)>::empty()]);
    } else {
        let (r, l, u, d) = (right_of(head), left_of(head), up_of(head), down_of(head));
        if can_enter(n, vis, r) {
            lemma_push_walk(n, q, r);
            lemma_enter_decreases(n, vis, r);
            lemma_completions_count(n, q.push(r));
        }
        if can_enter(n, vis, l) {
            lemma_push_walk(n, q, l);
            lemma_enter_decreases(n, vis, l);
            lemma_completions_count(n, q.push(l));
        }
        if can_enter(n, vis, u) {
            lemma_push_walk(n, q, u);
            lemma_enter_decreases(n, vis, u);
            lemma_completions_count(n, q.push(u));
        }
        if can_enter(n, vis, d) {
            lemma_push_walk(n, q, d);
            lemma_enter_decreases(n, vis, d);
            lemma_completions_count(n, q.push(d));
        }
        lemma_branch(n, q, r);
        lemma_branch(n, q, l);
        lemma_branch(n, q, u);
        lemma_branch(n, q, d);
        lemma_completions_split(n, q);
        let (br, bl, bu, bd) = (branch(n, q, r), branch(n, q, l), branch(n, q, u), branch(n, q, d));
        assert(br.disjoint(bl));
        lemma_set_disjoint_lens(br, bl);
        assert((br + bl).disjoint(bu));
        lemma_set_disjoint_lens(br + bl, bu);
        assert((br + bl + bu).disjoint(bd));
        lemma_set_disjoint_lens(br + bl + bu, bd);
    }
}

/// `path_count(n)` is the number of self-avoiding paths from the origin to the goal: the
/// sequences of grid cells that start at the origin, end at the goal, move one unit step
/// along an axis at a time, and never enter a cell twice. There are finitely many.
pub proof fn lemma_path_count_is_number_of_paths(n: int)
    requires
        0 <= n,
    ensures
        paths(n).finite(),
        paths(n).len() == path_count(n),
{
    let q = seq![origin()];
    assert(q.to_set() =~= set![origin()]) by {
        assert(q.contains(origin()));
    }
    lemma_completions_count(n, q);
    let s = completions(n, q);
    let f = prepend(origin());
    assert forall|t1: Seq<(int, int)>, t2: Seq<(int, int)>|
        s.contains(t1) && s.contains(t2) && #[trigger] f(t1) == #[trigger] f(t2) implies t1
        == t2 by {
        assert(t1 =~= f(t1).drop_first());
        assert(t2 =~= f(t2).drop_first());
    }
    assert forall|p: Seq<(int, int)>| paths(n).contains(p) <==> s.map(f).contains(p) by {
        if paths(n).contains(p) {
            let t = p.drop_first();
            assert(q + t =~= p);
            assert(s.contains(t));
            assert(f(t) =~= p);
        }
        if s.map(f).contains(p) {
            let t = choose|t: Seq<(int, int)>| s.contains(t) && f(t) == p;
            assert(q + t =~= p);
        }
    }
    assert(paths(n) =~= s.map(f));
    lemma_map_size(s, paths(n), f);
}

} // verus!
