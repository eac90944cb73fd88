//! The invariant of the search and the lemmas that carry it from one
//! expansion to the next.
use vstd::prelude::*;
use crate::cost::{heuristic_spec, lemma_heuristic_bound, step_cost_spec, COORD_LIMIT};
use crate::frontier::rank_le;
use crate::grid::{
    adjacent, is_walk, lemma_cell_pos, lemma_pos_cell, lemma_width_bounds_rows, on_grid, passable,
    passable_at, reachable,
};
use crate::position::Position;
use crate::search::{
    best, candidate, expand, init_state, keeps, moved, moved_x, moved_y, neighbours_spec,
    neighbours_upto, node_at, path_to, rank_of, relax, relax_all, run, solve_spec,
    trace, Node, Problem, SearchState,
};

verus! {

/// The number of `true` entries.
pub open spec fn count_true(s: Seq<bool>) -> nat
    decreases s.len(),
{
    if s.len() == 0 {
        0
    } else {
        count_true(s.drop_last()) + if s.last() {
            1nat
        } else {
            0nat
        }
    }
}

pub proof fn lemma_count_update(s: Seq<bool>, i: int)
    requires
        0 <= i < s.len(),
        !s[i],
    ensures
        count_true(s.update(i, true)) == count_true(s) + 1,
    decreases s.len(),
{
    if i == s.len() - 1 {
        assert(s.update(i, true).drop_last() =~= s.drop_last());
    } else {
        lemma_count_update(s.drop_last(), i);
        assert(s.update(i, true).drop_last() =~= s.drop_last().update(i, true));
    }
}

pub proof fn lemma_count_bound(s: Seq<bool>)
    ensures
        count_true(s) <= s.len(),
        count_true(s) == s.len() ==> forall|i: int| 0 <= i < s.len() ==> s[i],
    decreases s.len(),
{
    if s.len() > 0 {
        lemma_count_bound(s.drop_last());
        if count_true(s) == s.len() {
            assert forall|i: int| 0 <= i < s.len() implies s[i] by {
                if i < s.len() - 1 {
                    assert(s.drop_last()[i] == s[i]);
                }
            }
        }
    }
}

pub proof fn lemma_count_none(n: nat)
    ensures
        count_true(Seq::new(n, |i: int| false)) == 0,
    decreases n,
{
    if n > 0 {
        assert(Seq::new(n, |i: int| false).drop_last() =~= Seq::new((n - 1) as nat, |i: int| false));
        lemma_count_none((n - 1) as nat);
    }
}

/// The estimate from cell `c` to the goal.
pub open spec fn h_at(pb: Problem, c: int) -> int {
    heuristic_spec(pb.pos(c), pb.goal) as int
}

/// Cell `p` can be a parent: it is closed, or it is the cell being expanded.
pub open spec fn settled(st: SearchState, p: usize, cur: Option<usize>) -> bool {
    st.closed[p as int] || cur == Some(p)
}

/// The search has met cell `c`: it is queued, closed, or being expanded.
pub open spec fn known(st: SearchState, c: usize, cur: Option<usize>) -> bool {
    st.open.contains_key(c) || st.closed[c as int] || cur == Some(c)
}

/// What is recorded of a met cell: the start has no parent and cost zero;
/// any other cell is passable and came by one step from a settled parent,
/// and its cost is the parent's plus that step.
pub open spec fn record_ok(pb: Problem, st: SearchState, c: usize, cur: Option<usize>) -> bool {
    if c as int == pb.cell(pb.start) {
        st.parent[c as int] is None && st.g[c as int] == 0
    } else {
        match st.parent[c as int] {
            Some(p) => {
                &&& p < pb.cells()
                &&& settled(st, p, cur)
                &&& adjacent(pb.pos(p as int), pb.pos(c as int))
                &&& passable_at(pb.rows, pb.wall, pb.pos(c as int))
                &&& st.g[c as int] == st.g[p as int] + step_cost_spec(
                    pb.pos(p as int),
                    pb.pos(c as int),
                )
            },
            None => false,
        }
    }
}

/// The cell in direction `k` from cell `c` is passable.
pub open spec fn nbr_open(pb: Problem, c: usize, k: int) -> bool {
    passable(pb.rows, pb.wall, moved_x(pb.pos(c as int), k), moved_y(pb.pos(c as int), k))
}

/// The index of the cell in direction `k` from cell `c`.
pub open spec fn nbr_cell(pb: Problem, c: usize, k: int) -> int {
    moved_y(pb.pos(c as int), k) * pb.width() + moved_x(pb.pos(c as int), k)
}

/// The invariant, with `cur` the cell being expanded (if any) and `gmax` a
/// bound on the recorded costs.
pub open spec fn inv_core(pb: Problem, st: SearchState, cur: Option<usize>, gmax: nat) -> bool {
    &&& pb.well_posed()
    &&& st.closed.len() == pb.cells()
    &&& st.g.len() == pb.cells()
    &&& st.parent.len() == pb.cells()
    &&& gmax <= 14 * pb.cells()
    &&& forall|c: usize| #[trigger]
        st.open.contains_key(c) ==> {
            &&& c < pb.cells()
            &&& !st.closed[c as int]
            &&& cur != Some(c)
            &&& st.open[c] == rank_of(
                st.g[c as int] + h_at(pb, c as int),
                h_at(pb, c as int),
                c as int,
            )
        }
    &&& forall|c: usize|
        c < pb.cells() && #[trigger] known(st, c, cur) ==> record_ok(pb, st, c, cur) && st.g[c as int]
            <= gmax
    &&& known(st, pb.cell(pb.start) as usize, cur)
    &&& !st.closed[pb.cell(pb.goal)]
    &&& forall|c: usize, k: int|
        c < pb.cells() && st.closed[c as int] && 0 <= k < 8 && #[trigger] nbr_open(pb, c, k)
            ==> known(st, nbr_cell(pb, c, k) as usize, cur)
}

/// The invariant between expansions.
pub open spec fn inv(pb: Problem, st: SearchState) -> bool {
    inv_core(pb, st, None, 14 * count_true(st.closed))
}

/// The grid's width and height are at least one and at most its cell count.
pub proof fn lemma_dims(pb: Problem)
    requires
        pb.well_posed(),
    ensures
        1 <= pb.width() <= pb.cells(),
        1 <= pb.rows.len() <= pb.cells(),
        pb.cells() <= usize::MAX / 64,
        pb.cells() <= COORD_LIMIT,
        pb.start.x < pb.width(),
        pb.goal.x < pb.width(),
{
    vstd::arithmetic::div_mod::lemma_div_is_ordered_by_denominator(usize::MAX as int, 32, 64);
    lemma_width_bounds_rows(pb.rows);
    let w = pb.width();
    let h = pb.rows.len();
    assert(w <= w * h && h <= w * h) by (nonlinear_arith)
        requires w >= 1, h >= 1;
}

/// A position on the grid has a cell index below the cell count, and the
/// estimate from it fits comfortably in a `usize`.
pub proof fn lemma_on_grid_cell(pb: Problem, p: Position)
    requires
        pb.well_posed(),
        on_grid(pb.rows, p.x as int, p.y as int),
    ensures
        0 <= pb.cell(p) < pb.cells(),
        pb.pos(pb.cell(p)) == p,
        heuristic_spec(p, pb.goal) <= 20 * pb.cells(),
{
    lemma_dims(pb);
    lemma_width_bounds_rows(pb.rows);
    lemma_cell_pos(pb.width(), pb.rows.len(), p);
    lemma_heuristic_bound(p, pb.goal);
}

/// The position of a cell index is on the grid's bounding box, and the
/// estimate from it fits comfortably in a `usize`.
pub proof fn lemma_cell_in_box(pb: Problem, c: int)
    requires
        pb.well_posed(),
        0 <= c < pb.cells(),
    ensures
        pb.pos(c).x < pb.width(),
        pb.pos(c).y < pb.rows.len(),
        pb.cell(pb.pos(c)) == c,
        h_at(pb, c) <= 20 * pb.cells(),
{
    lemma_dims(pb);
    lemma_pos_cell(pb.width(), pb.rows.len(), c);
    lemma_heuristic_bound(pb.pos(c), pb.goal);
}

/// The starting state satisfies the invariant.
pub proof fn lemma_init(pb: Problem)
    requires
        pb.well_posed(),
    ensures
        inv(pb, init_state(pb)),
        count_true(init_state(pb).closed) == 0,
{
    let st = init_state(pb);
    let s = pb.cell(pb.start);
    lemma_on_grid_cell(pb, pb.start);
    lemma_on_grid_cell(pb, pb.goal);
    lemma_count_none(pb.cells());
    assert(st.closed =~= Seq::new(pb.cells(), |i: int| false));
    assert forall|c: usize| #[trigger] st.open.contains_key(c) implies {
        &&& c < pb.cells()
        &&& !st.closed[c as int]
        &&& None::<usize> != Some(c)
        &&& st.open[c] == rank_of(
            st.g[c as int] + h_at(pb, c as int),
            h_at(pb, c as int),
            c as int,
        )
    } by {
        assert(c as int == s);
    }
    assert forall|c: usize| c < pb.cells() && #[trigger] known(st, c, None) implies record_ok(
        pb,
        st,
        c,
        None,
    ) && st.g[c as int] <= 0 by {
        assert(c as int == s);
    }
}

/// A record offered during the expansion of `c`: a passable cell next to
/// `c`, reached with `c`'s cost plus the step, with its own estimate.
pub open spec fn good_candidate(pb: Problem, st: SearchState, c: usize, nd: Node) -> bool {
    &&& passable_at(pb.rows, pb.wall, nd.position)
    &&& adjacent(pb.pos(c as int), nd.position)
    &&& nd.g_cost == st.g[c as int] + step_cost_spec(pb.pos(c as int), nd.position)
    &&& nd.h_cost == heuristic_spec(nd.position, pb.goal)
}

/// The records offered around `cur` are good, and every passable direction
/// gets one.
pub proof fn lemma_candidates(pb: Problem, st: SearchState, c: usize, cur: Node, k: int)
    requires
        pb.well_posed(),
        c < pb.cells(),
        st.g.len() == pb.cells(),
        cur.position == pb.pos(c as int),
        cur.g_cost == st.g[c as int],
        st.g[c as int] + 14 <= 14 * pb.cells(),
        0 <= k <= 8,
    ensures
        forall|i: int|
            0 <= i < neighbours_upto(pb.rows, pb.wall, pb.goal, cur, k).len() ==> good_candidate(
                pb,
                st,
                c,
                #[trigger] neighbours_upto(pb.rows, pb.wall, pb.goal, cur, k)[i],
            ) && neighbours_upto(pb.rows, pb.wall, pb.goal, cur, k)[i].g_cost <= st.g[c as int] + 14,
        forall|j: int|
            0 <= j < k && #[trigger] nbr_open(pb, c, j) ==> exists|i: int|
                0 <= i < neighbours_upto(pb.rows, pb.wall, pb.goal, cur, k).len() && neighbours_upto(pb.rows, pb.wall, pb.goal, cur, k)[i].position
                    == moved(cur.position, j),
    decreases k,
{
    if k > 0 {
        lemma_candidates(pb, st, c, cur, k - 1);
        let prev = neighbours_upto(pb.rows, pb.wall, pb.goal, cur, k - 1);
        let ns = neighbours_upto(pb.rows, pb.wall, pb.goal, cur, k);
        if passable(pb.rows, pb.wall, moved_x(cur.position, k - 1), moved_y(cur.position, k - 1)) {
            let nd = candidate(pb.goal, cur, k - 1);
            lemma_dims(pb);
            lemma_on_grid_cell(pb, nd.position);
            assert(ns == prev.push(nd));
            assert(good_candidate(pb, st, c, nd));
            assert forall|i: int|
                0 <= i < ns.len() implies good_candidate(pb, st, c, #[trigger] ns[i])
                && ns[i].g_cost <= st.g[c as int] + 14 by {
                if i < prev.len() {
                    assert(ns[i] == prev[i]);
                }
            }
            assert forall|j: int| 0 <= j < k && #[trigger] nbr_open(pb, c, j) implies exists|i: int|
                0 <= i < ns.len() && ns[i].position == moved(cur.position, j) by {
                if j < k - 1 {
                    let i = choose|i: int|
                        0 <= i < prev.len() && prev[i].position == moved(cur.position, j);
                    assert(ns[i] == prev[i]);
                } else {
                    assert(ns[prev.len() as int] == nd);
                }
            }
        } else {
            assert(ns == prev);
        }
    }
}

/// Offering one good record keeps the invariant, leaves its cell met, and
/// forgets no met cell.
pub proof fn lemma_relax(pb: Problem, st: SearchState, c: usize, nd: Node, gmax: nat)
    requires
        inv_core(pb, st, Some(c), gmax),
        c < pb.cells(),
        !st.closed[c as int],
        good_candidate(pb, st, c, nd),
        nd.g_cost <= gmax,
    ensures
        inv_core(pb, relax(pb, st, c, nd), Some(c), gmax),
        known(relax(pb, st, c, nd), pb.cell(nd.position) as usize, Some(c)),
        forall|x: usize| #[trigger]
            known(st, x, Some(c)) ==> known(relax(pb, st, c, nd), x, Some(c)),
        relax(pb, st, c, nd).closed == st.closed,
        relax(pb, st, c, nd).g[c as int] == st.g[c as int],
{
    let m = pb.cell(nd.position);
    let s = pb.cell(pb.start);
    let r = relax(pb, st, c, nd);
    lemma_dims(pb);
    lemma_on_grid_cell(pb, nd.position);
    lemma_on_grid_cell(pb, pb.start);
    lemma_cell_in_box(pb, c as int);
    assert(m != c);
    if st.closed[m] {
    } else if st.open.contains_key(m as usize) && keeps(st.open[m as usize], nd) {
    } else {
        if m == s {
            assert(known(st, s as usize, Some(c)));
            assert(st.open.contains_key(m as usize));
            assert(record_ok(pb, st, s as usize, Some(c)));
        }
        assert(m != s);
        assert forall|x: usize| #[trigger] r.open.contains_key(x) implies {
            &&& x < pb.cells()
            &&& !r.closed[x as int]
            &&& Some(c) != Some(x)
            &&& r.open[x] == rank_of(r.g[x as int] + h_at(pb, x as int), h_at(pb, x as int), x as int)
        } by {
            if x as int != m {
                assert(st.open.contains_key(x));
            }
        }
        assert forall|x: usize| x < pb.cells() && #[trigger] known(r, x, Some(c)) implies record_ok(
            pb,
            r,
            x,
            Some(c),
        ) && r.g[x as int] <= gmax by {
            if x as int != m {
                assert(known(st, x, Some(c)));
                assert(record_ok(pb, st, x, Some(c)));
                if x as int != s {
                    let p = st.parent[x as int]->Some_0;
                    assert(p as int != m);
                }
            }
        }
        assert forall|x: usize, k: int|
            x < pb.cells() && r.closed[x as int] && 0 <= k < 8 && #[trigger] nbr_open(pb, x, k)
                implies known(r, nbr_cell(pb, x, k) as usize, Some(c)) by {
            assert(known(st, nbr_cell(pb, x, k) as usize, Some(c)));
        }
        assert(known(r, s as usize, Some(c)));
    }
}

/// Offering a sequence of good records keeps the invariant and leaves every
/// offered cell met.
pub proof fn lemma_relax_all(pb: Problem, st: SearchState, c: usize, ns: Seq<Node>, gmax: nat)
    requires
        inv_core(pb, st, Some(c), gmax),
        c < pb.cells(),
        !st.closed[c as int],
        forall|i: int|
            0 <= i < ns.len() ==> good_candidate(pb, st, c, #[trigger] ns[i]) && ns[i].g_cost
                <= gmax,
    ensures
        inv_core(pb, relax_all(pb, st, c, ns), Some(c), gmax),
        forall|i: int|
            0 <= i < ns.len() ==> known(
                relax_all(pb, st, c, ns),
                pb.cell(#[trigger] ns[i].position) as usize,
                Some(c),
            ),
        forall|x: usize| #[trigger]
            known(st, x, Some(c)) ==> known(relax_all(pb, st, c, ns), x, Some(c)),
        relax_all(pb, st, c, ns).closed == st.closed,
        relax_all(pb, st, c, ns).g[c as int] == st.g[c as int],
    decreases ns.len(),
{
    if ns.len() > 0 {
        let prev = ns.drop_last();
        assert forall|i: int|
            0 <= i < prev.len() implies good_candidate(pb, st, c, #[trigger] prev[i])
            && prev[i].g_cost <= gmax by {
            assert(prev[i] == ns[i]);
        }
        lemma_relax_all(pb, st, c, prev, gmax);
        let mid = relax_all(pb, st, c, prev);
        assert(good_candidate(pb, st, c, ns[ns.len() - 1]));
        lemma_relax(pb, mid, c, ns.last(), gmax);
        assert forall|i: int|
            0 <= i < ns.len() implies known(
            relax_all(pb, st, c, ns),
            pb.cell(#[trigger] ns[i].position) as usize,
            Some(c),
        ) by {
            if i < prev.len() {
                assert(prev[i] == ns[i]);
                assert(known(mid, pb.cell(prev[i].position) as usize, Some(c)));
            }
        }
    }
}

/// An expansion of a queued cell other than the goal keeps the invariant
/// and closes one more cell.
pub proof fn lemma_expand(pb: Problem, st: SearchState, c: usize)
    requires
        inv(pb, st),
        st.open.contains_key(c),
        c as int != pb.cell(pb.goal),
    ensures
        inv(pb, expand(pb, st, c)),
        count_true(expand(pb, st, c).closed) == count_true(st.closed) + 1,
{
    let n = count_true(st.closed);
    let gmax = 14 * (n + 1);
    let popped = SearchState { open: st.open.remove(c), ..st };
    lemma_dims(pb);
    lemma_popped(pb, st, c);
    // The offered records.
    let cur = node_at(pb, st, c);
    let ns = neighbours_spec(pb, cur);
    lemma_cell_in_box(pb, c as int);
    lemma_candidates(pb, popped, c, cur, 8);
    lemma_relax_all(pb, popped, c, ns, gmax);
    let relaxed = relax_all(pb, popped, c, ns);
    let fin = expand(pb, st, c);
    assert(fin == SearchState { closed: relaxed.closed.update(c as int, true), ..relaxed });
    lemma_count_update(relaxed.closed, c as int);
    // Every passable cell around `c` has been met.
    assert forall|k: int| 0 <= k < 8 && #[trigger] nbr_open(pb, c, k) implies known(
        relaxed,
        nbr_cell(pb, c, k) as usize,
        Some(c),
    ) by {
        let q = moved(cur.position, k);
        let i = choose|i: int| 0 <= i < ns.len() && ns[i].position == q;
        assert(known(relaxed, pb.cell(ns[i].position) as usize, Some(c)));
        assert(pb.cell(q) == nbr_cell(pb, c, k));
    }
    // Closing `c`.
    assert forall|x: usize| #[trigger] fin.open.contains_key(x) implies {
        &&& x < pb.cells()
        &&& !fin.closed[x as int]
        &&& None::<usize> != Some(x)
        &&& fin.open[x] == rank_of(fin.g[x as int] + h_at(pb, x as int), h_at(pb, x as int), x as int)
    } by {
        assert(relaxed.open.contains_key(x));
    }
    assert forall|x: usize| x < pb.cells() && #[trigger] known(fin, x, None) implies record_ok(
        pb,
        fin,
        x,
        None,
    ) && fin.g[x as int] <= gmax by {
        assert(known(relaxed, x, Some(c)));
        assert(record_ok(pb, relaxed, x, Some(c)));
    }
    assert forall|x: usize, k: int|
        x < pb.cells() && fin.closed[x as int] && 0 <= k < 8 && #[trigger] nbr_open(pb, x, k)
            implies known(fin, nbr_cell(pb, x, k) as usize, None) by {
        let q = moved(pb.pos(x as int), k);
        lemma_cell_in_box(pb, x as int);
        lemma_on_grid_cell(pb, q);
        assert(pb.cell(q) == nbr_cell(pb, x, k));
        if x == c {
            assert(known(relaxed, nbr_cell(pb, c, k) as usize, Some(c)));
        } else {
            assert(relaxed.closed[x as int]);
            assert(known(relaxed, nbr_cell(pb, x, k) as usize, Some(c)));
        }
    }
    lemma_on_grid_cell(pb, pb.start);
    lemma_on_grid_cell(pb, pb.goal);
    assert(known(relaxed, pb.cell(pb.start) as usize, Some(c)));
    assert(known(fin, pb.cell(pb.start) as usize, None));
    assert(!fin.closed[pb.cell(pb.goal)]);
}

/// Among the queued cells below `k`, one of greatest priority, if any is
/// queued there.
proof fn max_below(open: Map<usize, (usize, usize, usize)>, k: nat) -> (r: Option<usize>)
    requires
        k <= usize::MAX,
    ensures
        r is None ==> forall|d: usize| #[trigger] open.contains_key(d) ==> d >= k,
        r matches Some(c) ==> open.contains_key(c) && c < k && forall|d: usize|
            #[trigger] open.contains_key(d) && d < k ==> rank_le(open[d], open[c]),
    decreases k,
{
    if k == 0 {
        None
    } else {
        let last = (k - 1) as usize;
        let prev = max_below(open, (k - 1) as nat);
        if !open.contains_key(last) {
            prev
        } else {
            match prev {
                None => Some(last),
                Some(c) => if rank_le(open[last], open[c]) {
                    Some(c)
                } else {
                    Some(last)
                },
            }
        }
    }
}

/// A non-empty frontier has a cell of greatest priority, and it is the only one.
pub proof fn lemma_best(pb: Problem, st: SearchState)
    requires
        inv(pb, st),
        st.open.dom() != Set::<usize>::empty(),
    ensures
        st.open.contains_key(best(st.open)),
        forall|d: usize| #[trigger]
            st.open.contains_key(d) ==> rank_le(st.open[d], st.open[best(st.open)]),
{
    lemma_dims(pb);
    let some = choose|d: usize| st.open.dom().contains(d);
    assert(st.open.contains_key(some)) by {
        if !st.open.dom().contains(some) {
            assert(st.open.dom() =~= Set::<usize>::empty());
        }
    }
    let m = max_below(st.open, pb.cells());
    let c = m->Some_0;
    assert(st.open.contains_key(c) && forall|d: usize| #[trigger]
        st.open.contains_key(d) ==> rank_le(st.open[d], st.open[c]));
}

/// A cell of greatest priority is the one that `best` names.
pub proof fn lemma_best_unique(pb: Problem, st: SearchState, c: usize)
    requires
        inv(pb, st),
        st.open.contains_key(c),
        forall|d: usize| #[trigger] st.open.contains_key(d) ==> rank_le(st.open[d], st.open[c]),
    ensures
        best(st.open) == c,
{
    let b = best(st.open);
    assert(st.open.contains_key(b) && forall|d: usize| #[trigger]
        st.open.contains_key(d) ==> rank_le(st.open[d], st.open[b]));
    assert(rank_le(st.open[b], st.open[c]));
    assert(rank_le(st.open[c], st.open[b]));
    lemma_dims(pb);
}

/// A full run from a state with the invariant ends with the invariant, with
/// either the goal queued and found or the frontier empty.
pub proof fn lemma_run(pb: Problem, st: SearchState, fuel: nat)
    requires
        inv(pb, st),
        fuel + count_true(st.closed) == pb.cells(),
    ensures
        inv(pb, run(pb, st, fuel).0),
        run(pb, st, fuel).1 matches Some(c) ==> c as int == pb.cell(pb.goal) && run(
            pb,
            st,
            fuel,
        ).0.open.contains_key(c),
        run(pb, st, fuel).1 is None ==> run(pb, st, fuel).0.open.dom() == Set::<usize>::empty(),
    decreases fuel,
{
    if st.open.dom() != Set::<usize>::empty() {
        lemma_best(pb, st);
        let c = best(st.open);
        if c as int != pb.cell(pb.goal) {
            if fuel == 0 {
                lemma_count_bound(st.closed);
                assert(st.closed[c as int]);
            } else {
                lemma_expand(pb, st, c);
                lemma_run(pb, expand(pb, st, c), (fuel - 1) as nat);
            }
        }
    }
}

/// Following the parents from a met cell leads back to the start, one step
/// between neighbours at a time, through passable cells.
pub proof fn lemma_trace(pb: Problem, st: SearchState, c: usize)
    requires
        inv(pb, st),
        c < pb.cells(),
        known(st, c, None),
    ensures
        trace(st, c as int).len() >= 1,
        trace(st, c as int)[0] == c,
        trace(st, c as int).last() == pb.cell(pb.start),
        forall|i: int|
            0 <= i < trace(st, c as int).len() ==> 0 <= #[trigger] trace(st, c as int)[i]
                < pb.cells(),
        forall|i: int|
            0 <= i < trace(st, c as int).len() - 1 ==> adjacent(
                pb.pos(trace(st, c as int)[i + 1]),
                pb.pos(#[trigger] trace(st, c as int)[i]),
            ) && passable_at(pb.rows, pb.wall, pb.pos(trace(st, c as int)[i])),
    decreases st.g[c as int],
{
    let t = trace(st, c as int);
    assert(record_ok(pb, st, c, None));
    if c as int != pb.cell(pb.start) {
        let p = st.parent[c as int]->Some_0;
        assert(st.g[p as int] < st.g[c as int]);
        assert(known(st, p, None));
        lemma_trace(pb, st, p);
        let tp = trace(st, p as int);
        assert(t == seq![c as int] + tp);
        assert forall|i: int| 0 <= i < t.len() - 1 implies adjacent(
            pb.pos(t[i + 1]),
            pb.pos(#[trigger] t[i]),
        ) && passable_at(pb.rows, pb.wall, pb.pos(t[i])) by {
            if i > 0 {
                assert(t[i] == tp[i - 1]);
                assert(t[i + 1] == tp[i]);
            }
        }
        assert forall|i: int| 0 <= i < t.len() implies 0 <= #[trigger] t[i] < pb.cells() by {
            if i > 0 {
                assert(t[i] == tp[i - 1]);
            }
        }
    } else {
        lemma_on_grid_cell(pb, pb.start);
    }
}

/// The path to a met cell is a walk from the start to that cell.
pub proof fn lemma_path(pb: Problem, st: SearchState, c: usize)
    requires
        inv(pb, st),
        c < pb.cells(),
        known(st, c, None),
    ensures
        is_walk(pb.rows, pb.wall, path_to(pb, st, c as int)),
        path_to(pb, st, c as int)[0] == pb.start,
        path_to(pb, st, c as int).last() == pb.pos(c as int),
{
    lemma_trace(pb, st, c);
    lemma_on_grid_cell(pb, pb.start);
    let t = trace(st, c as int);
    let r = t.reverse();
    let p = path_to(pb, st, c as int);
    let n = t.len();
    assert(p.len() == n);
    assert forall|i: int| 0 <= i < p.len() implies #[trigger] p[i] == pb.pos(t[n - 1 - i]) by {}
    assert forall|i: int| 0 <= i < p.len() - 1 implies #[trigger] adjacent(p[i], p[i + 1]) by {
        assert(p[i] == pb.pos(t[n - 1 - i]));
        assert(p[i + 1] == pb.pos(t[n - 2 - i]));
        assert(t[n - 1 - i] == t[(n - 2 - i) + 1]);
        assert(adjacent(pb.pos(t[(n - 2 - i) + 1]), pb.pos(t[n - 2 - i])));
    }
    assert forall|i: int| 1 <= i < p.len() implies #[trigger] passable_at(pb.rows, pb.wall, p[i]) by {
        assert(p[i] == pb.pos(t[n - 1 - i]));
        assert(passable_at(pb.rows, pb.wall, pb.pos(t[n - 1 - i])));
    }
    assert(p[0] == pb.pos(t[n - 1]));
    assert(p[n - 1] == pb.pos(t[0]));
}

/// Each of the eight cells around `a` lies in one of the eight directions.
pub proof fn lemma_adjacent_direction(a: Position, b: Position) -> (k: int)
    requires
        adjacent(a, b),
    ensures
        0 <= k < 8,
        moved_x(a, k) == b.x,
        moved_y(a, k) == b.y,
{
    let dx = b.x - a.x;
    let dy = b.y - a.y;
    if dx == -1 && dy == 0 {
        0
    } else if dx == -1 && dy == -1 {
        1
    } else if dx == 0 && dy == -1 {
        2
    } else if dx == 1 && dy == -1 {
        3
    } else if dx == 1 && dy == 0 {
        4
    } else if dx == 1 && dy == 1 {
        5
    } else if dx == 0 && dy == 1 {
        6
    } else {
        7
    }
}

/// When the frontier runs empty, no walk leads from the start to the goal.
pub proof fn lemma_exhausted(pb: Problem, st: SearchState)
    requires
        inv(pb, st),
        st.open.dom() == Set::<usize>::empty(),
    ensures
        !reachable(pb.rows, pb.wall, pb.start, pb.goal),
{
    if reachable(pb.rows, pb.wall, pb.start, pb.goal) {
        let p = choose|p: Seq<Position>|
            is_walk(pb.rows, pb.wall, p) && p[0] == pb.start && p.last() == pb.goal;
        lemma_walk_closed(pb, st, p, p.len() - 1);
        lemma_on_grid_cell(pb, pb.goal);
    }
}

/// Along a walk from the start, every cell is closed once the frontier is
/// empty.
proof fn lemma_walk_closed(pb: Problem, st: SearchState, p: Seq<Position>, i: int)
    requires
        inv(pb, st),
        st.open.dom() == Set::<usize>::empty(),
        is_walk(pb.rows, pb.wall, p),
        p[0] == pb.start,
        0 <= i < p.len(),
    ensures
        on_grid(pb.rows, p[i].x as int, p[i].y as int),
        st.closed[pb.cell(p[i])],
    decreases i,
{
    lemma_dims(pb);
    assert forall|x: usize| !st.open.contains_key(x) by {
        assert(!st.open.dom().contains(x));
    }
    if i == 0 {
        lemma_on_grid_cell(pb, pb.start);
        assert(known(st, pb.cell(pb.start) as usize, None));
    } else {
        lemma_walk_closed(pb, st, p, i - 1);
        let a = p[i - 1];
        let b = p[i];
        assert(adjacent(p[i - 1], p[(i - 1) + 1]));
        assert(passable_at(pb.rows, pb.wall, p[i]));
        let k = lemma_adjacent_direction(a, b);
        lemma_on_grid_cell(pb, a);
        lemma_on_grid_cell(pb, b);
        let ca = pb.cell(a) as usize;
        assert(nbr_open(pb, ca, k));
        assert(nbr_cell(pb, ca, k) == pb.cell(b));
        assert(known(st, nbr_cell(pb, ca, k) as usize, None));
    }
}

/// What the search returns: a walk from the start to the goal when it finds
/// one, and `None` only when no walk exists.
pub proof fn lemma_solve(pb: Problem)
    requires
        pb.well_posed(),
    ensures
        solve_spec(pb) matches Some(path) ==> {
            &&& is_walk(pb.rows, pb.wall, path)
            &&& path[0] == pb.start
            &&& path.last() == pb.goal
        },
        solve_spec(pb) is None ==> !reachable(pb.rows, pb.wall, pb.start, pb.goal),
{
    lemma_init(pb);
    lemma_run(pb, init_state(pb), pb.cells());
    let (fin, found) = run(pb, init_state(pb), pb.cells());
    match found {
        Some(c) => {
            lemma_dims(pb);
            lemma_path(pb, fin, c);
            lemma_on_grid_cell(pb, pb.goal);
        },
        None => {
            lemma_exhausted(pb, fin);
        },
    }
}

/// A bound on the costs can be loosened.
pub proof fn lemma_inv_core_weaken(
    pb: Problem,
    st: SearchState,
    cur: Option<usize>,
    gmax: nat,
    looser: nat,
)
    requires
        inv_core(pb, st, cur, gmax),
        gmax <= looser <= 14 * pb.cells(),
    ensures
        inv_core(pb, st, cur, looser),
{
}

/// Taking a queued cell other than the goal out of the frontier, to expand
/// it, keeps the invariant with that cell being expanded.
pub proof fn lemma_popped(pb: Problem, st: SearchState, c: usize)
    requires
        inv(pb, st),
        st.open.contains_key(c),
        c as int != pb.cell(pb.goal),
    ensures
        inv_core(
            pb,
            SearchState { open: st.open.remove(c), ..st },
            Some(c),
            14 * (count_true(st.closed) + 1),
        ),
        14 * (count_true(st.closed) + 1) <= 14 * pb.cells(),
        c < pb.cells(),
        !st.closed[c as int],
        st.g[c as int] + 14 <= 14 * (count_true(st.closed) + 1),
{
    let n = count_true(st.closed);
    let gmax = 14 * (n + 1);
    let popped = SearchState { open: st.open.remove(c), ..st };
    lemma_dims(pb);
    lemma_count_bound(st.closed);
    assert(n < pb.cells()) by {
        if n == pb.cells() {
            assert(st.closed[c as int]);
        }
    }
    assert(known(st, c, None));
    assert forall|x: usize| #[trigger] popped.open.contains_key(x) implies {
        &&& x < pb.cells()
        &&& !popped.closed[x as int]
        &&& Some(c) != Some(x)
        &&& popped.open[x] == rank_of(
            popped.g[x as int] + h_at(pb, x as int),
            h_at(pb, x as int),
            x as int,
        )
    } by {
        assert(st.open.contains_key(x));
    }
    assert forall|x: usize| x < pb.cells() && #[trigger] known(popped, x, Some(c)) implies record_ok(
        pb,
        popped,
        x,
        Some(c),
    ) && popped.g[x as int] <= gmax by {
        assert(known(st, x, None));
    }
    assert forall|x: usize, k: int|
        x < pb.cells() && popped.closed[x as int] && 0 <= k < 8 && #[trigger] nbr_open(pb, x, k)
            implies known(popped, nbr_cell(pb, x, k) as usize, Some(c)) by {
        assert(known(st, nbr_cell(pb, x, k) as usize, None));
    }
    assert(known(st, pb.cell(pb.start) as usize, None));
}

} // verus!
