//! The A* search engine and its model.
//!
//! The model is a state machine over [`SearchState`]: the frontier maps each
//! queued cell to its priority, `closed` marks the cells already expanded, and
//! `g` and `parent` record the cost of the best route found to each cell and
//! the cell it came from. [`run`] steps it until the goal leaves the frontier
//! or the frontier is empty; [`solve_spec`] is the path that comes out.
use vstd::prelude::*;
use priority_queue::PriorityQueue;
use crate::cost::{heuristic, heuristic_spec, step_cost, step_cost_spec, COORD_LIMIT};
use crate::error::ErrorKind;
use crate::frontier::{
    frontier_entries, frontier_new, frontier_pop, frontier_priority, frontier_push, rank_le,
};
use crate::grid::{
    cell_of, grid_cells, grid_fits, grid_width, is_walk, off_x, off_y, on_grid, passable, pos_of,
    reachable, rows_view, width_of,
};
use crate::position::Position;
use crate::search_inv::{
    count_true, good_candidate, inv, inv_core, known, lemma_best_unique, lemma_candidates,
    lemma_cell_in_box, lemma_count_bound, lemma_dims, lemma_expand, lemma_init, lemma_on_grid_cell,
    lemma_inv_core_weaken, lemma_popped, lemma_relax, lemma_solve, record_ok,
};

verus! {

/// A cell discovered by the search, with the cost of the route that reached it
/// (`g_cost`) and the estimate of the cost from it to the goal (`h_cost`).
#[derive(Clone, Copy, Debug, PartialEq, Eq, Structural)]
pub struct Node {
    pub position: Position,
    pub g_cost: usize,
    pub h_cost: usize,
}

/// What the search works on.
pub struct Problem {
    pub rows: Seq<Seq<char>>,
    pub wall: char,
    pub start: Position,
    pub goal: Position,
}

impl Problem {
    pub open spec fn width(self) -> nat {
        grid_width(self.rows)
    }

    pub open spec fn cells(self) -> nat {
        grid_cells(self.rows)
    }

    pub open spec fn cell(self, p: Position) -> int {
        cell_of(self.width(), p)
    }

    pub open spec fn pos(self, c: int) -> Position {
        pos_of(self.width(), c)
    }

    /// Start and goal lie on the grid, and the grid is small enough for its
    /// costs to fit in a `usize`.
    pub open spec fn well_posed(self) -> bool {
        &&& on_grid(self.rows, self.start.x as int, self.start.y as int)
        &&& on_grid(self.rows, self.goal.x as int, self.goal.y as int)
        &&& grid_fits(self.rows)
    }
}

pub open spec fn f_spec(n: Node) -> int {
    n.g_cost + n.h_cost
}

/// `a` is a strictly better record than `b`: a lower total cost, or the same
/// total cost and a lower estimate.
pub open spec fn lower_cost_spec(a: Node, b: Node) -> bool {
    f_spec(a) < f_spec(b) || (a.h_cost < b.h_cost && f_spec(a) == f_spec(b))
}

/// The frontier priority of cell `c` with total cost `f` and estimate `h`.
/// The queue hands out its greatest priority first, so the order is reversed:
/// lowest total cost first, then lowest estimate, then lowest cell index.
pub open spec fn rank_of(f: int, h: int, c: int) -> (usize, usize, usize) {
    ((usize::MAX - f) as usize, (usize::MAX - h) as usize, (usize::MAX - c) as usize)
}

/// The total cost recorded in a priority.
pub open spec fn rank_f(p: (usize, usize, usize)) -> int {
    usize::MAX - p.0
}

/// The estimate recorded in a priority.
pub open spec fn rank_h(p: (usize, usize, usize)) -> int {
    usize::MAX - p.1
}

/// The queued record with priority `p` is better than the candidate `n`
/// (see [`lower_cost_spec`]), so `n` is dropped.
pub open spec fn keeps(p: (usize, usize, usize), n: Node) -> bool {
    rank_f(p) < f_spec(n) || (rank_h(p) < n.h_cost && rank_f(p) == f_spec(n))
}

/// The position `k` steps round from `p` (see [`off_x`]), as integers.
pub open spec fn moved_x(p: Position, k: int) -> int {
    p.x + off_x(k)
}

pub open spec fn moved_y(p: Position, k: int) -> int {
    p.y + off_y(k)
}

/// The position in direction `k` from `p`, when it is not off the grid's edge.
pub open spec fn moved(p: Position, k: int) -> Position {
    Position { x: moved_x(p, k) as usize, y: moved_y(p, k) as usize }
}

/// The record for the cell in direction `k` from `cur`, reached through `cur`.
pub open spec fn candidate(goal: Position, cur: Node, k: int) -> Node {
    let q = moved(cur.position, k);
    Node {
        position: q,
        g_cost: (cur.g_cost + step_cost_spec(cur.position, q)) as usize,
        h_cost: heuristic_spec(q, goal) as usize,
    }
}

/// The records for the passable cells among the first `k` directions.
pub open spec fn neighbours_upto(
    rows: Seq<Seq<char>>,
    wall: char,
    goal: Position,
    cur: Node,
    k: int,
) -> Seq<Node>
    decreases k,
{
    if k <= 0 {
        seq![]
    } else {
        let prev = neighbours_upto(rows, wall, goal, cur, k - 1);
        if passable(rows, wall, moved_x(cur.position, k - 1), moved_y(cur.position, k - 1)) {
            prev.push(candidate(goal, cur, k - 1))
        } else {
            prev
        }
    }
}

/// The records for the passable cells around `cur`, in direction order.
pub open spec fn neighbours_spec(pb: Problem, cur: Node) -> Seq<Node> {
    neighbours_upto(pb.rows, pb.wall, pb.goal, cur, 8)
}

/// The state of a search.
pub struct SearchState {
    pub open: Map<usize, (usize, usize, usize)>,
    pub closed: Seq<bool>,
    pub g: Seq<usize>,
    pub parent: Seq<Option<usize>>,
}

/// The state before the first step: only the start is queued.
pub open spec fn init_state(pb: Problem) -> SearchState {
    let s = pb.cell(pb.start);
    let h = heuristic_spec(pb.start, pb.goal) as int;
    SearchState {
        open: Map::empty().insert(s as usize, rank_of(h, h, s)),
        closed: Seq::new(pb.cells(), |i: int| false),
        g: Seq::new(pb.cells(), |i: int| 0usize),
        parent: Seq::new(pb.cells(), |i: int| None),
    }
}

/// The queued cell of greatest priority.
pub open spec fn best(open: Map<usize, (usize, usize, usize)>) -> usize {
    choose|c: usize|
        open.contains_key(c) && forall|d: usize| #[trigger]
            open.contains_key(d) ==> rank_le(open[d], open[c])
}

/// Offers the record `n`, reached from cell `c`, to the frontier: a closed
/// cell and a cell queued with a better record keep what they have; otherwise
/// the cell is queued with `n`.
pub open spec fn relax(pb: Problem, st: SearchState, c: usize, n: Node) -> SearchState {
    let m = pb.cell(n.position);
    if st.closed[m] {
        st
    } else if st.open.contains_key(m as usize) && keeps(st.open[m as usize], n) {
        st
    } else {
        SearchState {
            open: st.open.insert(m as usize, rank_of(f_spec(n), n.h_cost as int, m)),
            g: st.g.update(m, n.g_cost),
            parent: st.parent.update(m, Some(c)),
            ..st
        }
    }
}

/// Offers each record of `ns` in turn.
pub open spec fn relax_all(pb: Problem, st: SearchState, c: usize, ns: Seq<Node>) -> SearchState
    decreases ns.len(),
{
    if ns.len() == 0 {
        st
    } else {
        relax(pb, relax_all(pb, st, c, ns.drop_last()), c, ns.last())
    }
}

/// The record of cell `c` in state `st`.
pub open spec fn node_at(pb: Problem, st: SearchState, c: usize) -> Node {
    Node { position: pb.pos(c as int), g_cost: st.g[c as int], h_cost: heuristic_spec(pb.pos(c as int), pb.goal) as usize }
}

/// One expansion: `c` leaves the frontier, its neighbours are offered, and it
/// is closed.
pub open spec fn expand(pb: Problem, st: SearchState, c: usize) -> SearchState {
    let popped = SearchState { open: st.open.remove(c), ..st };
    let relaxed = relax_all(pb, popped, c, neighbours_spec(pb, node_at(pb, st, c)));
    SearchState { closed: relaxed.closed.update(c as int, true), ..relaxed }
}

/// Runs the search for at most `fuel` expansions. The result is the final
/// state and the goal's cell if it left the frontier.
pub open spec fn run(pb: Problem, st: SearchState, fuel: nat) -> (SearchState, Option<usize>)
    decreases fuel,
{
    if st.open.dom() == Set::<usize>::empty() {
        (st, None)
    } else {
        let c = best(st.open);
        if c == pb.cell(pb.goal) {
            (st, Some(c))
        } else if fuel == 0 {
            (st, None)
        } else {
            run(pb, expand(pb, st, c), (fuel - 1) as nat)
        }
    }
}

/// The cells from `c` back along the recorded parents.
pub open spec fn trace(st: SearchState, c: int) -> Seq<int>
    decreases (if 0 <= c < st.g.len() { st.g[c] as int } else { 0 }),
{
    if 0 <= c < st.parent.len() && 0 <= c < st.g.len() {
        match st.parent[c] {
            Some(p) => if p < st.g.len() && st.g[p as int] < st.g[c] {
                seq![c] + trace(st, p as int)
            } else {
                seq![c]
            },
            None => seq![c],
        }
    } else {
        seq![c]
    }
}

/// The path from the start to cell `c`.
pub open spec fn path_to(pb: Problem, st: SearchState, c: int) -> Seq<Position> {
    trace(st, c).reverse().map_values(|d: int| pb.pos(d))
}

/// What the search returns: the path from start to goal, or `None` when the
/// goal cannot be reached.
pub open spec fn solve_spec(pb: Problem) -> Option<Seq<Position>> {
    let (fin, found) = run(pb, init_state(pb), pb.cells());
    match found {
        Some(c) => Some(path_to(pb, fin, c as int)),
        None => None,
    }
}

/// The column and row offsets of direction `k`.
fn direction(k: usize) -> (r: (isize, isize))
    requires
        k < 8,
    ensures
        r.0 as int == off_x(k as int),
        r.1 as int == off_y(k as int),
{
    if k == 0 {
        (-1, 0)
    } else if k == 1 {
        (-1, -1)
    } else if k == 2 {
        (0, -1)
    } else if k == 3 {
        (1, -1)
    } else if k == 4 {
        (1, 0)
    } else if k == 5 {
        (1, 1)
    } else if k == 6 {
        (0, 1)
    } else {
        (-1, 1)
    }
}

/// `v` moved by `d`, unless that falls below zero.
fn shift(v: usize, d: isize) -> (r: Option<usize>)
    requires
        -1 <= d <= 1,
        v < usize::MAX,
    ensures
        r matches Some(u) ==> u == v + d,
        r is None ==> v + d < 0,
{
    if d < 0 {
        if v == 0 {
            None
        } else {
            Some(v - 1)
        }
    } else if d > 0 {
        Some(v + 1)
    } else {
        Some(v)
    }
}

impl Node {
    /// The record for `position`, reached from `previous`, with the estimate
    /// of the cost from `position` to `end`.
    pub fn new(position: Position, previous: &Node, end: Position) -> (r: Node)
        requires
            previous.g_cost + 14 <= usize::MAX,
            position.x <= COORD_LIMIT,
            position.y <= COORD_LIMIT,
            end.x <= COORD_LIMIT,
            end.y <= COORD_LIMIT,
        ensures
            r.position == position,
            r.g_cost == previous.g_cost + step_cost_spec(previous.position, position),
            r.h_cost == heuristic_spec(position, end),
    {
        Node {
            position,
            g_cost: previous.g_cost + step_cost(previous.position, position),
            h_cost: heuristic(position, end),
        }
    }

    /// The total cost: the cost so far plus the estimate of the rest.
    pub fn f_cost(&self) -> (r: usize)
        requires
            self.g_cost + self.h_cost <= usize::MAX,
        ensures
            r == f_spec(*self),
    {
        self.g_cost + self.h_cost
    }

    /// This record is strictly better than `other`: a lower total cost, or
    /// the same total cost and a lower estimate.
    pub fn lower_cost(&self, other: &Node) -> (r: bool)
        requires
            self.g_cost + self.h_cost <= usize::MAX,
            other.g_cost + other.h_cost <= usize::MAX,
        ensures
            r == lower_cost_spec(*self, *other),
    {
        self.f_cost() < other.f_cost() || (self.h_cost < other.h_cost && self.f_cost()
            == other.f_cost())
    }

    /// `(x, y)` is on the grid and no wall.
    pub fn is_valid(rows: &Vec<Vec<char>>, wall: char, x: usize, y: usize) -> (r: bool)
        ensures
            r == passable(rows_view(rows), wall, x as int, y as int),
    {
        y < rows.len() && x < rows[y].len() && rows[y][x] != wall
    }

    /// The records for the passable cells around this one, in direction
    /// order, each reached through this one.
    pub fn neighbours(&self, rows: &Vec<Vec<char>>, wall: char, end: Position) -> (r: Vec<Node>)
        requires
            self.position.x < COORD_LIMIT,
            self.position.y < COORD_LIMIT,
            end.x <= COORD_LIMIT,
            end.y <= COORD_LIMIT,
            self.g_cost + 14 <= usize::MAX,
        ensures
            r@ == neighbours_upto(rows_view(rows), wall, end, *self, 8),
    {
        let mut neighbours: Vec<Node> = Vec::new();
        for k in 0..8usize
            invariant
                self.position.x < COORD_LIMIT,
                self.position.y < COORD_LIMIT,
                end.x <= COORD_LIMIT,
                end.y <= COORD_LIMIT,
                self.g_cost + 14 <= usize::MAX,
                neighbours@ == neighbours_upto(rows_view(rows), wall, end, *self, k as int),
        {
            let (dx, dy) = direction(k);
            match (shift(self.position.x, dx), shift(self.position.y, dy)) {
                (Some(x), Some(y)) => {
                    if Node::is_valid(rows, wall, x, y) {
                        let node = Node::new(Position::new(x, y), self, end);
                        assert(node == candidate(end, *self, k as int));
                        neighbours.push(node);
                    }
                },
                _ => {},
            }
        }
        neighbours
    }
}

/// The search's working state: the frontier queue and a record per cell.
struct Search {
    open: PriorityQueue<usize, (usize, usize, usize)>,
    closed: Vec<bool>,
    g: Vec<usize>,
    parent: Vec<Option<usize>>,
}

impl Search {
    spec fn state(&self) -> SearchState {
        SearchState {
            open: frontier_entries(self.open),
            closed: self.closed@,
            g: self.g@,
            parent: self.parent@,
        }
    }

    /// Offers `nd`, reached from cell `c`, to the frontier (see [`relax`]).
    fn offer(&mut self, Ghost(pb): Ghost<Problem>, width: usize, c: usize, nd: Node)
        requires
            width == pb.width(),
            inv_core(pb, old(self).state(), Some(c), 14 * pb.cells()),
            good_candidate(pb, old(self).state(), c, nd),
            nd.g_cost <= 14 * pb.cells(),
        ensures
            final(self).state() == relax(pb, old(self).state(), c, nd),
    {
        proof {
            lemma_dims(pb);
            lemma_on_grid_cell(pb, nd.position);
        }
        let m = nd.position.y * width + nd.position.x;
        assert(m == pb.cell(nd.position));
        if self.closed[m] {
            return;
        }
        if let Some(p) = frontier_priority(&self.open, m) {
            proof {
                lemma_cell_in_box(pb, m as int);
                let st = old(self).state();
                assert(st.open.contains_key(m));
                assert(known(st, m, Some(c)));
            }
            let queued = Node {
                position: nd.position,
                g_cost: (usize::MAX - p.0) - (usize::MAX - p.1),
                h_cost: usize::MAX - p.1,
            };
            if queued.lower_cost(&nd) {
                return;
            }
        }
        let f = nd.f_cost();
        frontier_push(&mut self.open, m, (usize::MAX - f, usize::MAX - nd.h_cost, usize::MAX - m));
        self.g.set(m, nd.g_cost);
        self.parent.set(m, Some(c));
    }

    /// The path from the start to cell `c`, read off the recorded parents.
    fn path_to(&self, Ghost(pb): Ghost<Problem>, Ghost(st): Ghost<SearchState>, width: usize, c: usize) -> (r:
        Vec<Position>)
        requires
            width == pb.width(),
            inv(pb, st),
            st.g == self.g@,
            st.parent == self.parent@,
            c < pb.cells(),
            known(st, c, None),
        ensures
            r@ == path_to(pb, st, c as int),
    {
        proof {
            lemma_dims(pb);
        }
        let mut back: Vec<Position> = Vec::new();
        let ghost mut cells: Seq<int> = seq![];
        let mut cur = c;
        loop
            invariant_except_break
                trace(st, c as int) == cells + trace(st, cur as int),
            invariant
                width == pb.width(),
                inv(pb, st),
                st.g == self.g@,
                st.parent == self.parent@,
                cur < pb.cells(),
                known(st, cur, None),
                back@ == cells.map_values(|d: int| pb.pos(d)),
            ensures
                trace(st, c as int) == cells,
                back@ == cells.map_values(|d: int| pb.pos(d)),
            decreases st.g[cur as int],
        {
            assert(record_ok(pb, st, cur, None));
            proof {
                lemma_cell_in_box(pb, cur as int);
            }
            back.push(Position::new(cur % width, cur / width));
            proof {
                cells = cells.push(cur as int);
            }
            match self.parent[cur] {
                None => {
                    assert(trace(st, cur as int) == seq![cur as int]);
                    assert(trace(st, c as int) =~= cells);
                    break;
                },
                Some(p) => {
                    assert(known(st, p, None));
                    assert(trace(st, cur as int) == seq![cur as int] + trace(st, p as int));
                    assert(trace(st, c as int) =~= cells + trace(st, p as int));
                    cur = p;
                },
            }
        }
        let n = back.len();
        assert(n == trace(st, c as int).len());
        let mut path: Vec<Position> = Vec::new();
        for i in 0..n
            invariant
                n == back.len(),
                path@.len() == i,
                forall|j: int| 0 <= j < i ==> path@[j] == back@[n - 1 - j],
        {
            path.push(back[n - 1 - i]);
        }
        assert(path@ =~= path_to(pb, st, c as int));
        path
    }
}

/// Runs the search on a well-posed problem.
fn search(rows: &Vec<Vec<char>>, wall: char, start: Position, goal: Position) -> (r: Option<
    Vec<Position>,
>)
    requires
        (Problem { rows: rows_view(rows), wall, start, goal }).well_posed(),
    ensures
        r matches Some(v) ==> solve_spec(Problem { rows: rows_view(rows), wall, start, goal })
            == Some(v@),
        r is None ==> solve_spec(Problem { rows: rows_view(rows), wall, start, goal }) is None,
{
    let ghost pb = Problem { rows: rows_view(rows), wall, start, goal };
    proof {
        lemma_dims(pb);
        lemma_on_grid_cell(pb, start);
        lemma_on_grid_cell(pb, goal);
        lemma_init(pb);
    }
    let width = width_of(rows);
    let cells = width * rows.len();
    assert(cells == pb.cells());
    let mut closed: Vec<bool> = Vec::new();
    let mut g: Vec<usize> = Vec::new();
    let mut parent: Vec<Option<usize>> = Vec::new();
    for i in 0..cells
        invariant
            closed@.len() == i,
            g@.len() == i,
            parent@.len() == i,
            forall|j: int| 0 <= j < i ==> !closed@[j] && g@[j] == 0 && parent@[j] == None::<usize>,
    {
        closed.push(false);
        g.push(0);
        parent.push(None);
    }
    let s = start.y * width + start.x;
    let goal_cell = goal.y * width + goal.x;
    let h = heuristic(start, goal);
    let mut open = frontier_new();
    frontier_push(&mut open, s, (usize::MAX - h, usize::MAX - h, usize::MAX - s));
    let mut search = Search { open, closed, g, parent };
    assert(search.state().open =~= init_state(pb).open);
    assert(search.state().closed =~= init_state(pb).closed);
    assert(search.state().g =~= init_state(pb).g);
    assert(search.state().parent =~= init_state(pb).parent);
    assert(search.state() == init_state(pb));
    loop
        invariant
            pb == (Problem { rows: rows_view(rows), wall, start, goal }),
            width == pb.width(),
            cells == pb.cells(),
            goal_cell == pb.cell(pb.goal),
            inv(pb, search.state()),
            count_true(search.state().closed) <= cells,
            run(pb, init_state(pb), pb.cells()) == run(
                pb,
                search.state(),
                (cells - count_true(search.state().closed)) as nat,
            ),
        decreases cells - count_true(search.state().closed),
    {
        let ghost before = search.state();
        let ghost fuel = (cells - count_true(before.closed)) as nat;
        match frontier_pop(&mut search.open) {
            None => {
                assert(before.open.dom() =~= Set::<usize>::empty());
                assert(run(pb, before, fuel) == (before, None::<usize>));
                assert(run(pb, init_state(pb), pb.cells()) == (before, None::<usize>));
                return None;
            },
            Some((c, p)) => {
                proof {
                    lemma_best_unique(pb, before, c);
                    assert(before.open.dom().contains(c));
                }
                let ghost popped = search.state();
                assert(popped == SearchState { open: before.open.remove(c), ..before });
                if c == goal_cell {
                    assert(known(before, c, None));
                    assert(before.open.dom() != Set::<usize>::empty());
                    assert(run(pb, before, fuel) == (before, Some(c)));
                    assert(run(pb, init_state(pb), pb.cells()) == (before, Some(c)));
                    return Some(search.path_to(Ghost(pb), Ghost(before), width, c));
                }
                proof {
                    lemma_dims(pb);
                    lemma_on_grid_cell(pb, goal);
                    lemma_count_bound(before.closed);
                    if fuel == 0 {
                        assert(before.closed[c as int]);
                    }
                    lemma_cell_in_box(pb, c as int);
                    lemma_expand(pb, before, c);
                    lemma_popped(pb, before, c);
                }
                let cur = Node {
                    position: Position::new(c % width, c / width),
                    g_cost: search.g[c],
                    h_cost: usize::MAX - p.1,
                };
                assert(cur == node_at(pb, before, c));
                let neighbours = cur.neighbours(rows, wall, goal);
                let ghost ns = neighbours@;
                assert(ns == neighbours_spec(pb, node_at(pb, before, c)));
                let ghost gmax = 14 * (count_true(before.closed) + 1);
                proof {
                    assert(known(before, c, None));
                    lemma_candidates(pb, popped, c, cur, 8);
                }
                for j in 0..neighbours.len()
                    invariant
                        width == pb.width(),
                        neighbours@ == ns,
                        c < pb.cells(),
                        !popped.closed[c as int],
                        gmax <= 14 * pb.cells(),
                        forall|i: int|
                            0 <= i < ns.len() ==> good_candidate(pb, popped, c, #[trigger] ns[i])
                                && ns[i].g_cost <= gmax,
                        search.state() == relax_all(pb, popped, c, ns.take(j as int)),
                        inv_core(pb, search.state(), Some(c), gmax),
                        search.state().closed == popped.closed,
                        search.state().g[c as int] == popped.g[c as int],
                {
                    let ghost st = search.state();
                    let nd = neighbours[j];
                    assert(ns.take(j + 1).drop_last() =~= ns.take(j as int));
                    assert(good_candidate(pb, st, c, nd));
                    proof {
                        lemma_relax(pb, st, c, nd, gmax);
                        lemma_inv_core_weaken(pb, st, Some(c), gmax, 14 * pb.cells());
                    }
                    search.offer(Ghost(pb), width, c, nd);
                }
                assert(ns.take(ns.len() as int) =~= ns);
                search.closed.set(c, true);
                assert(search.state() == expand(pb, before, c));
            },
        }
    }
}

/// Finds a path from `start` to `end` through the grid's passable cells,
/// moving to any of the eight cells around at each step.
///
/// The path is the one that the A* search described in [`solve_spec`] finds:
/// it begins at `start`, ends at `end`, and each step goes to a neighbouring
/// passable cell. When no such path exists the result is
/// [`ErrorKind::MazeIsNotSolvable`]; a missing start or end gives
/// [`ErrorKind::StartEndNotSet`].
pub fn solve(rows: &Vec<Vec<char>>, wall: char, start: Option<Position>, end: Option<Position>) -> (r:
    Result<Vec<Position>, ErrorKind>)
    requires
        grid_fits(rows_view(rows)),
        start matches Some(s) ==> on_grid(rows_view(rows), s.x as int, s.y as int),
        end matches Some(e) ==> on_grid(rows_view(rows), e.x as int, e.y as int),
    ensures
        start is None || end is None ==> r == Err::<Vec<Position>, ErrorKind>(
            ErrorKind::StartEndNotSet,
        ),
        start is Some && end is Some ==> match solve_spec(
            (Problem { rows: rows_view(rows), wall, start: start->Some_0, goal: end->Some_0 }),
        ) {
            Some(path) => r is Ok && r->Ok_0@ == path,
            None => r == Err::<Vec<Position>, ErrorKind>(ErrorKind::MazeIsNotSolvable),
        },
        r matches Ok(v) ==> is_walk(rows_view(rows), wall, v@) && v@[0] == start->Some_0
            && v@.last() == end->Some_0,
        r == Err::<Vec<Position>, ErrorKind>(ErrorKind::MazeIsNotSolvable) ==> !reachable(
            rows_view(rows),
            wall,
            start->Some_0,
            end->Some_0,
        ),
{
    match (start, end) {
        (Some(s), Some(e)) => {
            let ghost pb = Problem { rows: rows_view(rows), wall, start: s, goal: e };
            proof {
                lemma_solve(pb);
            }
            match search(rows, wall, s, e) {
                Some(path) => Ok(path),
                None => Err(ErrorKind::MazeIsNotSolvable),
            }
        },
        _ => Err(ErrorKind::StartEndNotSet),
    }
}

} // verus!
