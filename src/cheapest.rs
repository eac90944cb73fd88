//! When the estimate is consistent, the search finds a cheapest path.
//!
//! The estimate is consistent when it never falls by more than the cost of
//! the step between two neighbouring cells. Then every cell is closed with
//! the cost of a cheapest walk to it, and so is the goal.
use vstd::prelude::*;
use crate::cost::{heuristic_spec, path_cost, step_cost_spec};
use crate::frontier::rank_le;
use crate::grid::{adjacent, is_walk, on_grid, passable_at};
use crate::position::Position;
use crate::search::{
    best, expand, init_state, moved, neighbours_spec, node_at, path_to, rank_of, relax, relax_all,
    run, trace, Node, Problem, SearchState,
};
use crate::search_inv::{
    count_true, good_candidate, h_at, inv, inv_core, known, lemma_adjacent_direction, lemma_best,
    lemma_candidates, lemma_cell_in_box, lemma_count_bound, lemma_dims, lemma_expand,
    lemma_init, lemma_on_grid_cell, lemma_popped, lemma_relax_all, lemma_run, nbr_cell, nbr_open,
    record_ok,
};

verus! {

/// The estimate falls by at most a step's cost from a cell on the grid to a
/// passable cell next to it.
pub open spec fn consistent(pb: Problem) -> bool {
    forall|a: Position, b: Position|
        on_grid(pb.rows, a.x as int, a.y as int) && passable_at(pb.rows, pb.wall, b)
            && #[trigger] adjacent(a, b) ==> heuristic_spec(a, pb.goal) <= step_cost_spec(a, b)
            + heuristic_spec(b, pb.goal)
}

/// Every walk from the start to `x` costs at least `v`.
pub open spec fn below_walks(pb: Problem, x: Position, v: int) -> bool {
    forall|w: Seq<Position>| #[trigger]
        is_walk(pb.rows, pb.wall, w) && w[0] == pb.start && w.last() == x ==> v <= path_cost(w)
}

/// Closed cells carry the cost of a cheapest walk, and a queued cell next
/// to a closed one costs at most one step more.
pub open spec fn opt_inv(pb: Problem, st: SearchState) -> bool {
    &&& forall|c: usize|
        c < pb.cells() && #[trigger] st.closed[c as int] ==> below_walks(
            pb,
            pb.pos(c as int),
            st.g[c as int] as int,
        )
    &&& forall|c: usize, k: int|
        c < pb.cells() && st.closed[c as int] && 0 <= k < 8 && #[trigger] nbr_open(pb, c, k)
            && st.open.contains_key(nbr_cell(pb, c, k) as usize) ==> st.g[nbr_cell(pb, c, k)]
            <= st.g[c as int] + step_cost_spec(pb.pos(c as int), pb.pos(nbr_cell(pb, c, k)))
}

proof fn lemma_cost_extend(w: Seq<Position>, i: int)
    requires
        1 <= i < w.len(),
    ensures
        path_cost(w.take(i + 1)) == path_cost(w.take(i)) + step_cost_spec(w[i - 1], w[i]),
{
    assert(w.take(i + 1).drop_last() =~= w.take(i));
}

/// The cost of a walk splits at any of its cells.
proof fn lemma_cost_split(w: Seq<Position>, j: int)
    requires
        0 <= j < w.len(),
    ensures
        path_cost(w) == path_cost(w.take(j + 1)) + path_cost(w.subrange(j, w.len() as int)),
    decreases w.len(),
{
    if j == w.len() - 1 {
        assert(w.take(j + 1) =~= w);
        assert(w.subrange(j, w.len() as int).len() == 1);
    } else {
        let u = w.drop_last();
        lemma_cost_split(u, j);
        assert(u.take(j + 1) =~= w.take(j + 1));
        let s = w.subrange(j, w.len() as int);
        assert(s.drop_last() =~= u.subrange(j, u.len() as int));
        assert(s[s.len() - 2] == w[w.len() - 2]);
    }
}

/// Along a walk on the grid, the estimate falls by at most the walk's cost.
proof fn lemma_estimate_along(pb: Problem, u: Seq<Position>)
    requires
        consistent(pb),
        u.len() >= 1,
        forall|i: int| 0 <= i < u.len() ==> on_grid(pb.rows, #[trigger] u[i].x as int, u[i].y as int),
        forall|i: int| 1 <= i < u.len() ==> #[trigger] passable_at(pb.rows, pb.wall, u[i]),
        forall|i: int| 0 <= i < u.len() - 1 ==> #[trigger] adjacent(u[i], u[i + 1]),
    ensures
        heuristic_spec(u[0], pb.goal) <= path_cost(u) + heuristic_spec(u.last(), pb.goal),
    decreases u.len(),
{
    if u.len() > 1 {
        let v = u.drop_last();
        assert forall|i: int| 0 <= i < v.len() - 1 implies #[trigger] adjacent(v[i], v[i + 1]) by {
            assert(adjacent(u[i], u[i + 1]));
        }
        assert forall|i: int| 1 <= i < v.len() implies #[trigger] passable_at(pb.rows, pb.wall, v[i]) by {
            assert(passable_at(pb.rows, pb.wall, u[i]));
        }
        assert forall|i: int| 0 <= i < v.len() implies on_grid(pb.rows, #[trigger] v[i].x as int, v[i].y as int) by {
            assert(on_grid(pb.rows, u[i].x as int, u[i].y as int));
        }
        lemma_estimate_along(pb, v);
        let n = u.len() - 1;
        assert(adjacent(u[n - 1], u[n - 1 + 1]));
        assert(on_grid(pb.rows, u[n - 1].x as int, u[n - 1].y as int));
        assert(passable_at(pb.rows, pb.wall, u[n]));
    }
}

/// The cells of a walk from the start lie on the grid.
proof fn lemma_walk_on_grid(pb: Problem, w: Seq<Position>)
    requires
        pb.well_posed(),
        is_walk(pb.rows, pb.wall, w),
        w[0] == pb.start,
    ensures
        forall|i: int| 0 <= i < w.len() ==> on_grid(pb.rows, #[trigger] w[i].x as int, w[i].y as int),
{
    assert forall|i: int| 0 <= i < w.len() implies on_grid(pb.rows, #[trigger] w[i].x as int, w[i].y as int) by {
        if i > 0 {
            assert(passable_at(pb.rows, pb.wall, w[i]));
        }
    }
}

/// Along a walk from the start that ends at a cell not yet closed, some cell
/// is queued with a cost no higher than the walk's cost up to it.
proof fn lemma_first_open(pb: Problem, st: SearchState, w: Seq<Position>, i: int) -> (j: int)
    requires
        inv(pb, st),
        opt_inv(pb, st),
        is_walk(pb.rows, pb.wall, w),
        w[0] == pb.start,
        0 <= i < w.len(),
        !st.closed[pb.cell(w[i])],
    ensures
        0 <= j <= i,
        st.open.contains_key(pb.cell(w[j]) as usize),
        st.g[pb.cell(w[j])] <= path_cost(w.take(j + 1)),
    decreases i,
{
    lemma_dims(pb);
    lemma_walk_on_grid(pb, w);
    if i == 0 {
        lemma_on_grid_cell(pb, pb.start);
        assert(known(st, pb.cell(pb.start) as usize, None));
        assert(record_ok(pb, st, pb.cell(pb.start) as usize, None));
        0
    } else {
        let a = w[i - 1];
        let b = w[i];
        lemma_on_grid_cell(pb, a);
        lemma_on_grid_cell(pb, b);
        let ca = pb.cell(a) as usize;
        let cb = pb.cell(b) as usize;
        if st.closed[ca as int] {
            assert(adjacent(w[i - 1], w[(i - 1) + 1]));
            assert(passable_at(pb.rows, pb.wall, w[i]));
            let k = lemma_adjacent_direction(a, b);
            assert(nbr_open(pb, ca, k));
            assert(nbr_cell(pb, ca, k) == cb);
            assert(known(st, cb, None));
            // The walk up to `a` bounds the cost of `a`.
            let u = w.take(i);
            assert(is_walk(pb.rows, pb.wall, u)) by {
                assert forall|t: int| 0 <= t < u.len() - 1 implies #[trigger] adjacent(u[t], u[t + 1]) by {
                    assert(adjacent(w[t], w[t + 1]));
                }
                assert forall|t: int| 1 <= t < u.len() implies #[trigger] passable_at(pb.rows, pb.wall, u[t]) by {
                    assert(passable_at(pb.rows, pb.wall, w[t]));
                }
            }
            assert(below_walks(pb, pb.pos(ca as int), st.g[ca as int] as int));
            assert(u[0] == pb.start && u.last() == a);
            lemma_cost_extend(w, i);
            i
        } else {
            lemma_first_open(pb, st, w, i - 1)
        }
    }
}

/// The cell of greatest priority costs no more than any walk to it.
pub proof fn lemma_pop_cheapest(pb: Problem, st: SearchState, c: usize)
    requires
        inv(pb, st),
        opt_inv(pb, st),
        consistent(pb),
        st.open.contains_key(c),
        forall|d: usize| #[trigger] st.open.contains_key(d) ==> rank_le(st.open[d], st.open[c]),
    ensures
        below_walks(pb, pb.pos(c as int), st.g[c as int] as int),
{
    lemma_dims(pb);
    assert forall|w: Seq<Position>| #[trigger]
        is_walk(pb.rows, pb.wall, w) && w[0] == pb.start && w.last() == pb.pos(
            c as int,
        ) implies st.g[c as int] <= path_cost(w) by {
        if path_cost(w) < st.g[c as int] {
            lemma_cell_in_box(pb, c as int);
            let n = w.len() - 1;
            assert(pb.cell(w[n]) == c);
            let j = lemma_first_open(pb, st, w, n);
            let m = pb.cell(w[j]) as usize;
            lemma_walk_on_grid(pb, w);
            lemma_on_grid_cell(pb, w[j]);
            lemma_cell_in_box(pb, m as int);
            assert(known(st, m, None));
            assert(known(st, c, None));
            // The estimate from `w[j]` is at most the rest of the walk plus
            // the estimate from `c`.
            let rest = w.subrange(j, w.len() as int);
            assert forall|t: int| 0 <= t < rest.len() implies on_grid(pb.rows, #[trigger] rest[t].x as int, rest[t].y as int) by {
                assert(rest[t] == w[j + t]);
            }
            assert forall|t: int| 1 <= t < rest.len() implies #[trigger] passable_at(pb.rows, pb.wall, rest[t]) by {
                assert(rest[t] == w[j + t]);
            }
            assert forall|t: int| 0 <= t < rest.len() - 1 implies #[trigger] adjacent(rest[t], rest[t + 1]) by {
                assert(rest[t] == w[j + t]);
                assert(rest[t + 1] == w[j + t + 1]);
            }
            lemma_estimate_along(pb, rest);
            lemma_cost_split(w, j);
            assert(rank_le(st.open[m], st.open[c]));
        }
    }
}

/// Cost consistency: the cost of the path to a met cell is its recorded cost.
pub proof fn lemma_path_cost(pb: Problem, st: SearchState, c: usize)
    requires
        inv(pb, st),
        c < pb.cells(),
        known(st, c, None),
    ensures
        path_cost(path_to(pb, st, c as int)) == st.g[c as int],
    decreases st.g[c as int],
{
    assert(record_ok(pb, st, c, None));
    let t = trace(st, c as int);
    if c as int != pb.cell(pb.start) {
        let p = st.parent[c as int]->Some_0;
        assert(known(st, p, None));
        lemma_path_cost(pb, st, p);
        assert(t == seq![c as int] + trace(st, p as int));
        let pp = path_to(pb, st, p as int);
        let pc = path_to(pb, st, c as int);
        assert(pc =~= pp.push(pb.pos(c as int)));
        crate::search_inv::lemma_path(pb, st, p);
        assert(pp.last() == pb.pos(p as int));
        assert(pc.drop_last() =~= pp);
    } else {
        assert(t == seq![c as int]);
        assert(path_to(pb, st, c as int).len() == 1);
    }
}

/// Offering a record never raises the cost of a queued cell, leaves closed
/// cells alone, and leaves the offered cell, unless closed, queued at a cost
/// no higher than the record's.
proof fn lemma_relax_g(pb: Problem, st: SearchState, c: usize, nd: Node, gmax: nat)
    requires
        inv_core(pb, st, Some(c), gmax),
        c < pb.cells(),
        !st.closed[c as int],
        good_candidate(pb, st, c, nd),
        nd.g_cost <= gmax,
    ensures
        forall|x: usize|
            x < pb.cells() && #[trigger] st.closed[x as int] ==> relax(pb, st, c, nd).g[x as int]
                == st.g[x as int],
        forall|x: usize| #[trigger]
            st.open.contains_key(x) ==> relax(pb, st, c, nd).open.contains_key(x) && relax(
                pb,
                st,
                c,
                nd,
            ).g[x as int] <= st.g[x as int],
        !st.closed[pb.cell(nd.position)] ==> relax(pb, st, c, nd).open.contains_key(
            pb.cell(nd.position) as usize,
        ) && relax(pb, st, c, nd).g[pb.cell(nd.position)] <= nd.g_cost,
{
    let m = pb.cell(nd.position);
    lemma_dims(pb);
    lemma_on_grid_cell(pb, nd.position);
    lemma_cell_in_box(pb, m);
    if !st.closed[m] && st.open.contains_key(m as usize) {
        assert(known(st, m as usize, Some(c)));
    }
}

/// Offering records in turn: the same, for each of them.
proof fn lemma_relax_all_g(pb: Problem, st: SearchState, c: usize, ns: Seq<Node>, gmax: nat)
    requires
        inv_core(pb, st, Some(c), gmax),
        c < pb.cells(),
        !st.closed[c as int],
        forall|i: int|
            0 <= i < ns.len() ==> good_candidate(pb, st, c, #[trigger] ns[i]) && ns[i].g_cost
                <= gmax,
    ensures
        forall|x: usize|
            x < pb.cells() && #[trigger] st.closed[x as int] ==> relax_all(pb, st, c, ns).g[x as int]
                == st.g[x as int],
        forall|x: usize| #[trigger]
            st.open.contains_key(x) ==> relax_all(pb, st, c, ns).open.contains_key(x) && relax_all(
                pb,
                st,
                c,
                ns,
            ).g[x as int] <= st.g[x as int],
        forall|i: int|
            0 <= i < ns.len() && !st.closed[pb.cell(#[trigger] ns[i].position)] ==> relax_all(
                pb,
                st,
                c,
                ns,
            ).open.contains_key(pb.cell(ns[i].position) as usize) && relax_all(pb, st, c, ns).g[pb.cell(
                ns[i].position,
            )] <= ns[i].g_cost,
    decreases ns.len(),
{
    if ns.len() > 0 {
        let prev = ns.drop_last();
        assert forall|i: int|
            0 <= i < prev.len() implies good_candidate(pb, st, c, #[trigger] prev[i])
            && prev[i].g_cost <= gmax by {
            assert(prev[i] == ns[i]);
        }
        lemma_relax_all_g(pb, st, c, prev, gmax);
        lemma_relax_all(pb, st, c, prev, gmax);
        let mid = relax_all(pb, st, c, prev);
        assert(good_candidate(pb, st, c, ns[ns.len() - 1]));
        lemma_relax_g(pb, mid, c, ns.last(), gmax);
        let fin = relax_all(pb, st, c, ns);
        assert(fin == relax(pb, mid, c, ns.last()));
        assert forall|i: int|
            0 <= i < ns.len() && !st.closed[pb.cell(#[trigger] ns[i].position)] implies fin.open.contains_key(
            pb.cell(ns[i].position) as usize,
        ) && fin.g[pb.cell(ns[i].position)] <= ns[i].g_cost by {
            assert(good_candidate(pb, st, c, ns[i]));
            lemma_dims(pb);
            lemma_on_grid_cell(pb, ns[i].position);
            if i < prev.len() {
                assert(prev[i] == ns[i]);
                let x = pb.cell(ns[i].position) as usize;
                assert(mid.open.contains_key(x));
                assert(mid.g[x as int] <= ns[i].g_cost);
                assert(fin.g[x as int] <= mid.g[x as int]);
            }
        }
    }
}

/// An expansion of the cell of greatest priority, when it is not the goal,
/// keeps the cheapest-walk invariant.
proof fn lemma_expand_opt(pb: Problem, st: SearchState, c: usize)
    requires
        inv(pb, st),
        opt_inv(pb, st),
        consistent(pb),
        st.open.contains_key(c),
        forall|d: usize| #[trigger] st.open.contains_key(d) ==> rank_le(st.open[d], st.open[c]),
        c as int != pb.cell(pb.goal),
    ensures
        opt_inv(pb, expand(pb, st, c)),
{
    let n = count_true(st.closed);
    let gmax = 14 * (n + 1);
    let popped = SearchState { open: st.open.remove(c), ..st };
    lemma_dims(pb);
    lemma_popped(pb, st, c);
    lemma_pop_cheapest(pb, st, c);
    let cur = node_at(pb, st, c);
    let ns = neighbours_spec(pb, cur);
    lemma_cell_in_box(pb, c as int);
    lemma_candidates(pb, popped, c, cur, 8);
    lemma_relax_all(pb, popped, c, ns, gmax);
    lemma_relax_all_g(pb, popped, c, ns, gmax);
    let relaxed = relax_all(pb, popped, c, ns);
    let fin = expand(pb, st, c);
    assert(fin == SearchState { closed: relaxed.closed.update(c as int, true), ..relaxed });
    assert forall|x: usize|
        x < pb.cells() && #[trigger] fin.closed[x as int] implies below_walks(
        pb,
        pb.pos(x as int),
        fin.g[x as int] as int,
    ) by {
        if x != c {
            assert(st.closed[x as int]);
            assert(popped.closed[x as int]);
        }
    }
    assert forall|x: usize, k: int|
        x < pb.cells() && fin.closed[x as int] && 0 <= k < 8 && #[trigger] nbr_open(pb, x, k)
            && fin.open.contains_key(nbr_cell(pb, x, k) as usize) implies fin.g[nbr_cell(pb, x, k)]
        <= fin.g[x as int] + step_cost_spec(pb.pos(x as int), pb.pos(nbr_cell(pb, x, k))) by {
        let q = moved(pb.pos(x as int), k);
        let m = nbr_cell(pb, x, k);
        lemma_cell_in_box(pb, x as int);
        lemma_on_grid_cell(pb, q);
        assert(pb.cell(q) == m);
        assert(!relaxed.closed[m]);
        if x == c {
            let i = choose|i: int| 0 <= i < ns.len() && ns[i].position == q;
            assert(good_candidate(pb, popped, c, ns[i]));
            assert(!popped.closed[pb.cell(ns[i].position)]);
        } else {
            assert(st.closed[x as int]);
            assert(popped.closed[x as int]);
            assert(known(st, m as usize, None));
            assert(st.open.contains_key(m as usize));
            assert(m != c);
            assert(popped.open.contains_key(m as usize));
        }
    }
}

/// The state before the first step has no closed cell.
proof fn lemma_init_opt(pb: Problem)
    requires
        pb.well_posed(),
    ensures
        opt_inv(pb, init_state(pb)),
{
}

/// A run that finds the goal finds it at the cost of a cheapest walk.
proof fn lemma_run_opt(pb: Problem, st: SearchState, fuel: nat)
    requires
        inv(pb, st),
        opt_inv(pb, st),
        consistent(pb),
        fuel + count_true(st.closed) == pb.cells(),
    ensures
        run(pb, st, fuel).1 matches Some(c) ==> below_walks(
            pb,
            pb.pos(c as int),
            run(pb, st, fuel).0.g[c as int] as int,
        ),
    decreases fuel,
{
    if st.open.dom() != Set::<usize>::empty() {
        lemma_best(pb, st);
        let c = best(st.open);
        if c as int == pb.cell(pb.goal) {
            lemma_pop_cheapest(pb, st, c);
        } else if fuel == 0 {
            lemma_count_bound(st.closed);
            assert(st.closed[c as int]);
        } else {
            lemma_expand(pb, st, c);
            lemma_expand_opt(pb, st, c);
            lemma_run_opt(pb, expand(pb, st, c), (fuel - 1) as nat);
        }
    }
}

/// When the estimate is consistent on the grid, the search finds a path
/// whenever a walk exists, and the path costs no more than the walk.
pub proof fn lemma_cheapest_path(pb: Problem, w: Seq<Position>)
    requires
        pb.well_posed(),
        consistent(pb),
        is_walk(pb.rows, pb.wall, w),
        w[0] == pb.start,
        w.last() == pb.goal,
    ensures
        crate::search::solve_spec(pb) is Some,
        path_cost(crate::search::solve_spec(pb)->Some_0) <= path_cost(w),
{
    lemma_init(pb);
    lemma_init_opt(pb);
    lemma_run(pb, init_state(pb), pb.cells());
    lemma_run_opt(pb, init_state(pb), pb.cells());
    crate::search_inv::lemma_solve(pb);
    let (fin, found) = run(pb, init_state(pb), pb.cells());
    if found is None {
        assert(crate::grid::reachable(pb.rows, pb.wall, pb.start, pb.goal));
    }
    let c = found->Some_0;
    lemma_dims(pb);
    lemma_on_grid_cell(pb, pb.goal);
    assert(known(fin, c, None));
    lemma_path_cost(pb, fin, c);
}

} // verus!
