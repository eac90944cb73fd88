//! What holds of every search.
use vstd::prelude::*;
use crate::cost::path_cost;
use crate::grid::{is_path, is_walk, passable_at, reachable};
use crate::maze::{holds_at, MazeView};
use crate::search::{best, init_state, path_to, run, solve_spec, trace, Problem};
use crate::search_inv::{lemma_best, lemma_init, lemma_on_grid_cell, lemma_solve};

verus! {

/// Solving depends on the grid, the wall symbol, the start and the end alone:
/// two mazes that agree on them get the same path, however often they are
/// solved.
pub proof fn lemma_solve_deterministic(a: MazeView, b: MazeView)
    requires
        a.rows == b.rows,
        a.wall_char == b.wall_char,
        a.start == b.start,
        a.end == b.end,
    ensures
        solve_spec(a.problem()) == solve_spec(b.problem()),
{
    assert(a.problem() == b.problem());
}

/// A path that the search finds starts at the start, ends at the goal, steps
/// each time to one of the eight cells around, and meets no wall.
pub proof fn lemma_found_path_is_valid(pb: Problem)
    requires
        pb.well_posed(),
        passable_at(pb.rows, pb.wall, pb.start),
    ensures
        solve_spec(pb) is Some ==> is_path(pb.rows, pb.wall, solve_spec(pb)->Some_0, pb.start, pb.goal),
{
    lemma_solve(pb);
    if let Some(p) = solve_spec(pb) {
        assert forall|i: int| 0 <= i < p.len() implies #[trigger] passable_at(pb.rows, pb.wall, p[i]) by {
            if i > 0 {
                assert(passable_at(pb.rows, pb.wall, p[i]));
            }
        }
    }
}

/// The search reports the maze unsolvable exactly when walls cut the goal
/// off from the start: when no walk leads from one to the other.
pub proof fn lemma_unsolvable_iff_cut_off(pb: Problem)
    requires
        pb.well_posed(),
    ensures
        solve_spec(pb) is None <==> !reachable(pb.rows, pb.wall, pb.start, pb.goal),
{
    lemma_solve(pb);
    if let Some(p) = solve_spec(pb) {
        assert(is_walk(pb.rows, pb.wall, p) && p[0] == pb.start && p.last() == pb.goal);
    }
}

/// A maze whose start or end symbol does not occur has no start or no end,
/// so solving it fails with `StartEndNotSet`.
pub proof fn lemma_missing_endpoint(m: MazeView)
    requires
        m.wf(),
        (forall|x: int, y: int| !#[trigger] holds_at(m.rows, m.start_char, x, y)) || (forall|
            x: int,
            y: int,
        | !#[trigger] holds_at(m.rows, m.end_char, x, y)),
    ensures
        m.start is None || m.end is None,
{
    if let Some(p) = m.start {
        if let Some(q) = m.end {
            assert(holds_at(m.rows, m.start_char, p.x as int, p.y as int));
            assert(holds_at(m.rows, m.end_char, q.x as int, q.y as int));
        }
    }
}

/// When start and goal coincide, the path is the start alone, at no cost.
pub proof fn lemma_trivial_path(pb: Problem)
    requires
        pb.well_posed(),
        pb.start == pb.goal,
    ensures
        solve_spec(pb) == Some(seq![pb.start]),
        path_cost(seq![pb.start]) == 0,
{
    let st = init_state(pb);
    let s = pb.cell(pb.start);
    lemma_init(pb);
    lemma_on_grid_cell(pb, pb.start);
    assert(st.open.dom().contains(s as usize));
    lemma_best(pb, st);
    assert(best(st.open) as int == s);
    assert(run(pb, st, pb.cells()) == (st, Some(s as usize)));
    assert(trace(st, s) == seq![s]);
    assert(trace(st, s).reverse() =~= seq![s]);
    assert(path_to(pb, st, s) =~= seq![pb.start]);
}

} // verus!
