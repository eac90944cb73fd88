//! Solving a maze given inline in one call.
use vstd::prelude::*;
use crate::grid::{grid_fits, rows_view};
use crate::maze::{first_place, first_position, lemma_located_is_first_place};
use crate::position::Position;
use crate::search::{solve, solve_spec, Problem};
use crate::text::{chars_of, grid_view, pieces, split_pieces};

verus! {

/// The rows of an inline maze: the text cut at each `\`.
pub open spec fn inline_rows(maze: Seq<char>) -> Seq<Seq<char>> {
    pieces(maze, '\\')
}

/// The problem of an inline maze: walls `W`, from the top-left cell to the
/// first `X`.
pub open spec fn inline_problem(maze: Seq<char>) -> Problem {
    Problem {
        rows: inline_rows(maze),
        wall: 'W',
        start: Position { x: 0, y: 0 },
        goal: first_place(inline_rows(maze), 'X')->Some_0,
    }
}

/// A path as `(row, column)` pairs.
pub open spec fn row_col_pairs(p: Seq<Position>) -> Seq<(usize, usize)> {
    p.map_values(|q: Position| (q.y, q.x))
}

/// Solves a maze written inline, its rows separated by `\` and its walls
/// marked `W`, from the top-left cell to the first `X`.
///
/// The path comes as `(row, column)` pairs. It fails when the first row is
/// empty, when no `X` occurs, and when no path leads there.
pub fn path_finder(maze: &str) -> (r: Result<Vec<(usize, usize)>, &'static str>)
    requires
        grid_fits(inline_rows(maze@)),
    ensures
        r is Err ==> r->Err_0@ == "Maze is not solvable!"@,
        r is Ok <==> inline_rows(maze@)[0].len() > 0 && first_place(inline_rows(maze@), 'X') is Some
            && solve_spec(inline_problem(maze@)) is Some,
        r is Ok ==> r->Ok_0@ == row_col_pairs(solve_spec(inline_problem(maze@))->Some_0),
{
    let chars = chars_of(maze);
    let field = split_pieces(&chars, 0, chars.len(), '\\');
    assert(chars@.subrange(0, chars@.len() as int) =~= maze@);
    assert(rows_view(&field) =~= grid_view(field@));
    let ghost rows = inline_rows(maze@);
    let end = first_position(&field, 'X');
    proof {
        lemma_located_is_first_place(rows, 'X', end);
    }
    if field.len() == 0 || field[0].len() == 0 {
        return Err("Maze is not solvable!");
    }
    let goal = match end {
        Some(goal) => goal,
        None => {
            return Err("Maze is not solvable!");
        },
    };
    match solve(&field, 'W', Some(Position::new(0, 0)), Some(goal)) {
        Ok(path) => {
            let mut out: Vec<(usize, usize)> = Vec::new();
            for i in 0..path.len()
                invariant
                    out@ == row_col_pairs(path@.take(i as int)),
            {
                out.push((path[i].y, path[i].x));
                assert(row_col_pairs(path@.take(i + 1)) =~= row_col_pairs(path@.take(i as int)).push(
                    (path[i as int].y, path[i as int].x),
                ));
            }
            assert(path@.take(path.len() as int) =~= path@);
            Ok(out)
        },
        Err(_) => Err("Maze is not solvable!"),
    }
}

} // verus!
