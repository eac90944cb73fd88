//! The grid seen by the search: rows of characters, one of which marks walls.
use vstd::prelude::*;
use crate::cost::abs_diff;
use crate::position::Position;

verus! {

/// The rows of a grid as sequences of characters.
pub open spec fn rows_view(rows: &Vec<Vec<char>>) -> Seq<Seq<char>> {
    rows@.map_values(|r: Vec<char>| r@)
}

/// The width of a grid: the length of its longest row.
pub open spec fn grid_width(rows: Seq<Seq<char>>) -> nat
    decreases rows.len(),
{
    if rows.len() == 0 {
        0
    } else {
        let w = grid_width(rows.drop_last());
        if rows.last().len() > w {
            rows.last().len()
        } else {
            w
        }
    }
}

/// The number of cells that the search keeps records for.
pub open spec fn grid_cells(rows: Seq<Seq<char>>) -> nat {
    grid_width(rows) * rows.len()
}

/// The grid is small enough for every cost to fit in a `usize`.
pub open spec fn grid_fits(rows: Seq<Seq<char>>) -> bool {
    grid_cells(rows) <= usize::MAX / 64
}

/// `(x, y)` lies on the grid.
pub open spec fn on_grid(rows: Seq<Seq<char>>, x: int, y: int) -> bool {
    0 <= y < rows.len() && 0 <= x < rows[y].len()
}

/// `(x, y)` lies on the grid and is no wall.
pub open spec fn passable(rows: Seq<Seq<char>>, wall: char, x: int, y: int) -> bool {
    on_grid(rows, x, y) && rows[y][x] != wall
}

pub open spec fn passable_at(rows: Seq<Seq<char>>, wall: char, p: Position) -> bool {
    passable(rows, wall, p.x as int, p.y as int)
}

/// The column offset of the `k`-th direction; directions go round from west.
pub open spec fn off_x(k: int) -> int {
    if k == 0 || k == 1 || k == 7 {
        -1
    } else if k == 2 || k == 6 {
        0
    } else {
        1
    }
}

/// The row offset of the `k`-th direction.
pub open spec fn off_y(k: int) -> int {
    if k == 0 || k == 4 {
        0
    } else if k == 1 || k == 2 || k == 3 {
        -1
    } else {
        1
    }
}

/// `b` is one of the eight cells around `a`.
pub open spec fn adjacent(a: Position, b: Position) -> bool {
    abs_diff(a.x as int, b.x as int) <= 1 && abs_diff(a.y as int, b.y as int) <= 1 && a != b
}

/// The index of the cell at `p` in a grid of width `w`.
pub open spec fn cell_of(w: nat, p: Position) -> int {
    p.y * w + p.x
}

/// The position of cell `c` in a grid of width `w`.
pub open spec fn pos_of(w: nat, c: int) -> Position {
    Position { x: (c % (w as int)) as usize, y: (c / (w as int)) as usize }
}

/// A walk: each step goes to one of the eight cells around, and every cell
/// after the first is passable.
pub open spec fn is_walk(rows: Seq<Seq<char>>, wall: char, p: Seq<Position>) -> bool {
    &&& p.len() >= 1
    &&& forall|i: int| 0 <= i < p.len() - 1 ==> #[trigger] adjacent(p[i], p[i + 1])
    &&& forall|i: int| 1 <= i < p.len() ==> #[trigger] passable_at(rows, wall, p[i])
}

/// A path from `a` to `b`: a walk from `a` to `b` through passable cells
/// only, `a` included.
pub open spec fn is_path(
    rows: Seq<Seq<char>>,
    wall: char,
    p: Seq<Position>,
    a: Position,
    b: Position,
) -> bool {
    &&& is_walk(rows, wall, p)
    &&& p[0] == a
    &&& p.last() == b
    &&& forall|i: int| 0 <= i < p.len() ==> #[trigger] passable_at(rows, wall, p[i])
}

/// A walk from `a` to `b` exists.
pub open spec fn reachable(rows: Seq<Seq<char>>, wall: char, a: Position, b: Position) -> bool {
    exists|p: Seq<Position>| is_walk(rows, wall, p) && p[0] == a && p.last() == b
}

/// Every row is at most as long as the grid is wide.
pub proof fn lemma_width_bounds_rows(rows: Seq<Seq<char>>)
    ensures
        forall|y: int| 0 <= y < rows.len() ==> #[trigger] rows[y].len() <= grid_width(rows),
    decreases rows.len(),
{
    if rows.len() > 0 {
        lemma_width_bounds_rows(rows.drop_last());
        assert forall|y: int| 0 <= y < rows.len() implies #[trigger] rows[y].len() <= grid_width(
            rows,
        ) by {
            if y < rows.len() - 1 {
                assert(rows[y] == rows.drop_last()[y]);
            }
        }
    }
}

/// Cell indices and positions correspond one to one on the grid.
pub proof fn lemma_cell_pos(w: nat, h: nat, p: Position)
    requires
        p.x < w,
        p.y < h,
    ensures
        0 <= cell_of(w, p) < w * h,
        pos_of(w, cell_of(w, p)) == p,
{
    let c = p.y * w + p.x;
    assert(0 <= c < w * h) by (nonlinear_arith)
        requires c == p.y * w + p.x, p.x < w, p.y < h, p.x >= 0, p.y >= 0;
    vstd::arithmetic::div_mod::lemma_fundamental_div_mod_converse(
        c,
        w as int,
        p.y as int,
        p.x as int,
    );
}

/// The position of a cell lies within the grid's bounds.
pub proof fn lemma_pos_cell(w: nat, h: nat, c: int)
    requires
        0 <= c < w * h,
        w * h <= usize::MAX,
    ensures
        pos_of(w, c).x < w,
        pos_of(w, c).y < h,
        cell_of(w, pos_of(w, c)) == c,
{
    assert(w > 0) by (nonlinear_arith)
        requires 0 <= c < w * h;
    vstd::arithmetic::div_mod::lemma_fundamental_div_mod(c, w as int);
    vstd::arithmetic::div_mod::lemma_div_pos_is_pos(c, w as int);
    vstd::arithmetic::div_mod::lemma_mod_bound(c, w as int);
    let q = c / (w as int);
    let r = c % (w as int);
    assert(q < h) by (nonlinear_arith)
        requires c == w * q + r, 0 <= r, c < w * h, w > 0;
    assert(h <= w * h) by (nonlinear_arith)
        requires w > 0;
    assert(pos_of(w, c).x == r && pos_of(w, c).y == q);
    assert(q * w == w * q) by (nonlinear_arith);
}

/// The width of a grid: the length of its longest row.
pub fn width_of(rows: &Vec<Vec<char>>) -> (w: usize)
    ensures
        w == grid_width(rows_view(rows)),
{
    let mut w: usize = 0;
    let mut i: usize = 0;
    while i < rows.len()
        invariant
            i <= rows.len(),
            w == grid_width(rows_view(rows).take(i as int)),
        decreases rows.len() - i,
    {
        assert(rows_view(rows).take(i + 1).drop_last() =~= rows_view(rows).take(i as int));
        if rows[i].len() > w {
            w = rows[i].len();
        }
        i = i + 1;
    }
    assert(rows_view(rows).take(i as int) =~= rows_view(rows));
    w
}


} // verus!
