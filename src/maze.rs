//! The maze: a grid read from text, the symbols that mark its walls, start
//! and end, and the path once it is solved.
use vstd::prelude::*;
use crate::error::{Error, ErrorKind};
use crate::grid::{grid_fits, is_path, on_grid, passable_at, reachable, rows_view, width_of};
use crate::position::Position;
use crate::search::{solve, solve_spec, Problem};
use crate::text::{
    chars_of, grid_view, pieces, split_pieces, split_words, trim, trim_bounds, words,
};

verus! {

/// `ch` stands at `(x, y)`.
pub open spec fn holds_at(rows: Seq<Seq<char>>, ch: char, x: int, y: int) -> bool {
    on_grid(rows, x, y) && rows[y][x] == ch
}

/// `p` is the first place of `ch`, reading rows top to bottom and each row
/// left to right.
pub open spec fn is_first(rows: Seq<Seq<char>>, ch: char, p: Position) -> bool {
    &&& holds_at(rows, ch, p.x as int, p.y as int)
    &&& forall|x: int, y: int| #[trigger]
        holds_at(rows, ch, x, y) ==> y > p.y || (y == p.y && x >= p.x)
}

/// `r` is the first place of `ch`, or `None` where `ch` does not occur.
pub open spec fn located(rows: Seq<Seq<char>>, ch: char, r: Option<Position>) -> bool {
    match r {
        Some(p) => is_first(rows, ch, p),
        None => forall|x: int, y: int| !#[trigger] holds_at(rows, ch, x, y),
    }
}

/// The first place of `ch`, if it occurs.
pub open spec fn first_place(rows: Seq<Seq<char>>, ch: char) -> Option<Position> {
    if exists|p: Position| is_first(rows, ch, p) {
        Some(choose|p: Position| is_first(rows, ch, p))
    } else {
        None
    }
}

/// There is one first place.
pub proof fn lemma_located_is_first_place(rows: Seq<Seq<char>>, ch: char, r: Option<Position>)
    requires
        located(rows, ch, r),
    ensures
        r == first_place(rows, ch),
{
    match r {
        Some(p) => {
            let q = choose|q: Position| is_first(rows, ch, q);
            assert(holds_at(rows, ch, q.x as int, q.y as int));
            assert(holds_at(rows, ch, p.x as int, p.y as int));
            assert(p == q);
        },
        None => {
            if exists|p: Position| is_first(rows, ch, p) {
                let q = choose|q: Position| is_first(rows, ch, q);
                assert(holds_at(rows, ch, q.x as int, q.y as int));
            }
        },
    }
}

/// The first place of `ch` in the grid.
pub fn first_position(rows: &Vec<Vec<char>>, ch: char) -> (r: Option<Position>)
    ensures
        located(rows_view(rows), ch, r),
{
    let ghost g = rows_view(rows);
    for y in 0..rows.len()
        invariant
            g == rows_view(rows),
            forall|x: int, yy: int| 0 <= yy < y ==> !#[trigger] holds_at(g, ch, x, yy),
    {
        let n = rows[y].len();
        for x in 0..n
            invariant
                n == rows[y as int].len(),
                g == rows_view(rows),
                y < rows.len(),
                forall|xx: int, yy: int| 0 <= yy < y ==> !#[trigger] holds_at(g, ch, xx, yy),
                forall|xx: int| 0 <= xx < x ==> !#[trigger] holds_at(g, ch, xx, y as int),
        {
            if rows[y][x] == ch {
                return Some(Position::new(x, y));
            }
        }
    }
    None
}

/// What a maze holds.
pub struct MazeView {
    pub rows: Seq<Seq<char>>,
    pub start: Option<Position>,
    pub end: Option<Position>,
    pub path: Option<Seq<Position>>,
    pub start_char: char,
    pub end_char: char,
    pub wall_char: char,
    pub path_char: char,
    pub separator: char,
}

impl MazeView {
    /// Start and end are the first places of their symbols.
    pub open spec fn wf(self) -> bool {
        located(self.rows, self.start_char, self.start) && located(self.rows, self.end_char, self.end)
    }

    /// Two of the start, end, wall and separator symbols coincide.
    pub open spec fn chars_conflict(self) -> bool {
        self.end_char == self.start_char || self.start_char == self.separator || self.end_char
            == self.separator || self.wall_char == self.separator || self.wall_char
            == self.start_char || self.wall_char == self.end_char
    }

    /// The search problem of a maze whose start and end are set.
    pub open spec fn problem(self) -> Problem {
        Problem {
            rows: self.rows,
            wall: self.wall_char,
            start: self.start->Some_0,
            goal: self.end->Some_0,
        }
    }

    /// The same symbols and path as `other`.
    pub open spec fn same_settings(self, other: MazeView) -> bool {
        &&& self.path == other.path
        &&& self.start_char == other.start_char
        &&& self.end_char == other.end_char
        &&& self.wall_char == other.wall_char
        &&& self.path_char == other.path_char
        &&& self.separator == other.separator
    }
}

/// `r` is the error of kind `k`.
pub open spec fn fails_with<T>(r: Result<T, Error>, k: ErrorKind) -> bool {
    r matches Err(e) && e.kind == k
}

/// A path as `(x, y)` pairs.
pub open spec fn pairs(p: Seq<Position>) -> Seq<(usize, usize)> {
    p.map_values(|q: Position| (q.x, q.y))
}

/// A maze read from text, with the symbols that mark its walls, start and end
/// (by default `'W'`, `'S'` and `'E'`), the symbol that separates rows in
/// inline text (`'\\'`) and the symbol that draws the path (`'X'`).
///
/// When a symbol occurs more than once, its first place counts, reading rows
/// top to bottom and each row left to right.
pub struct Maze {
    maze: Vec<Vec<char>>,
    start: Option<Position>,
    end: Option<Position>,
    path: Option<Vec<Position>>,
    start_char: char,
    end_char: char,
    wall_char: char,
    path_char: char,
    separator: char,
}

impl View for Maze {
    type V = MazeView;

    closed spec fn view(&self) -> MazeView {
        MazeView {
            rows: rows_view(&self.maze),
            start: self.start,
            end: self.end,
            path: match self.path {
                Some(p) => Some(p@),
                None => None,
            },
            start_char: self.start_char,
            end_char: self.end_char,
            wall_char: self.wall_char,
            path_char: self.path_char,
            separator: self.separator,
        }
    }
}

impl Maze {
    pub open spec fn wf(&self) -> bool {
        self@.wf()
    }

    /// A maze with one empty row and the default symbols, neither start nor
    /// end, and no path.
    pub fn new() -> (r: Maze)
        ensures
            r.wf(),
            r@.rows == seq![Seq::<char>::empty()],
            r@.start is None,
            r@.end is None,
            r@.path is None,
            r@.start_char == 'S',
            r@.end_char == 'E',
            r@.wall_char == 'W',
            r@.path_char == 'X',
            r@.separator == '\\',
    {
        let mut maze: Vec<Vec<char>> = Vec::new();
        maze.push(Vec::new());
        let r = Maze {
            maze,
            start: None,
            end: None,
            path: None,
            start_char: 'S',
            end_char: 'E',
            wall_char: 'W',
            path_char: 'X',
            separator: '\\',
        };
        assert(r@.rows =~= seq![Seq::<char>::empty()]);
        r
    }

    /// Finds the start symbol.
    fn calculate_start(&mut self)
        ensures
            final(self).maze == old(self).maze,
            final(self).start_char == old(self).start_char,
            final(self).end == old(self).end,
            final(self)@.same_settings(old(self)@),
            located(final(self)@.rows, final(self)@.start_char, final(self)@.start),
    {
        self.start = first_position(&self.maze, self.start_char);
    }

    /// Finds the end symbol.
    fn calculate_end(&mut self)
        ensures
            final(self).maze == old(self).maze,
            final(self).end_char == old(self).end_char,
            final(self).start == old(self).start,
            final(self)@.same_settings(old(self)@),
            located(final(self)@.rows, final(self)@.end_char, final(self)@.end),
    {
        self.end = first_position(&self.maze, self.end_char);
    }

    /// Takes the grid from `text`: each run of characters other than white
    /// space is a row.
    pub fn load(self, text: &str) -> (r: Maze)
        ensures
            r.wf(),
            r@.rows == words(text@),
            r@.same_settings(self@),
    {
        let mut m = self;
        let chars = chars_of(text);
        m.maze = split_words(&chars);
        assert(rows_view(&m.maze) =~= grid_view(m.maze@));
        m.calculate_start();
        m.calculate_end();
        m
    }

    /// Takes the grid from `text` written inline: without its leading and
    /// trailing white space, `text` is cut into rows at each separator.
    pub fn load_inline(self, text: &str) -> (r: Maze)
        ensures
            r.wf(),
            r@.rows == pieces(trim(text@), self@.separator),
            r@.same_settings(self@),
    {
        let mut m = self;
        let chars = chars_of(text);
        let (a, b) = trim_bounds(&chars);
        m.maze = split_pieces(&chars, a, b, m.separator);
        assert(rows_view(&m.maze) =~= grid_view(m.maze@));
        m.calculate_start();
        m.calculate_end();
        m
    }

    /// Sets the symbol of walls.
    pub fn set_walls_char(self, symbol: char) -> (r: Maze)
        requires
            self.wf(),
        ensures
            r.wf(),
            r@ == (MazeView { wall_char: symbol, ..self@ }),
    {
        let mut m = self;
        m.wall_char = symbol;
        m
    }

    /// Sets the symbol of the start, and finds it.
    pub fn set_start_char(self, symbol: char) -> (r: Maze)
        requires
            self.wf(),
        ensures
            r.wf(),
            r@ == (MazeView { start_char: symbol, start: r@.start, ..self@ }),
    {
        let mut m = self;
        m.start_char = symbol;
        m.calculate_start();
        m
    }

    /// Sets the symbol of the end, and finds it.
    pub fn set_end_char(self, symbol: char) -> (r: Maze)
        requires
            self.wf(),
        ensures
            r.wf(),
            r@ == (MazeView { end_char: symbol, end: r@.end, ..self@ }),
    {
        let mut m = self;
        m.end_char = symbol;
        m.calculate_end();
        m
    }

    /// Sets the symbol that draws the path.
    pub fn set_path_char(self, symbol: char) -> (r: Maze)
        requires
            self.wf(),
        ensures
            r.wf(),
            r@ == (MazeView { path_char: symbol, ..self@ }),
    {
        let mut m = self;
        m.path_char = symbol;
        m
    }

    /// Sets the symbol that separates rows in inline text.
    pub fn set_separator(self, symbol: char) -> (r: Maze)
        requires
            self.wf(),
        ensures
            r.wf(),
            r@ == (MazeView { separator: symbol, ..self@ }),
    {
        let mut m = self;
        m.separator = symbol;
        m
    }

    /// The symbol that draws the path.
    pub fn path_char(&self) -> (r: char)
        ensures
            r == self@.path_char,
    {
        self.path_char
    }

    /// The symbol of walls.
    pub fn wall(&self) -> (r: char)
        ensures
            r == self@.wall_char,
    {
        self.wall_char
    }

    /// The rows of the grid.
    pub fn field(&self) -> (r: &[Vec<char>])
        ensures
            grid_view(r@) == self@.rows,
    {
        assert(grid_view(self.maze@) =~= rows_view(&self.maze));
        self.maze.as_slice()
    }

    /// The symbol of the end.
    pub fn end_char(&self) -> (r: char)
        ensures
            r == self@.end_char,
    {
        self.end_char
    }

    /// The symbol of the start.
    pub fn start_char(&self) -> (r: char)
        ensures
            r == self@.start_char,
    {
        self.start_char
    }

    /// The symbol that separates rows in inline text.
    pub fn separator_char(&self) -> (r: char)
        ensures
            r == self@.separator,
    {
        self.separator
    }

    /// The place of the start symbol, if it occurs.
    pub fn start(&self) -> (r: Option<Position>)
        ensures
            r == self@.start,
    {
        self.start
    }

    /// The place of the end symbol, if it occurs.
    pub fn end(&self) -> (r: Option<Position>)
        ensures
            r == self@.end,
    {
        self.end
    }

    /// The number of columns: the length of the first row (zero without rows).
    pub fn x_len(&self) -> (r: usize)
        ensures
            r == (if self@.rows.len() == 0 {
                0
            } else {
                self@.rows[0].len()
            }),
    {
        if self.maze.len() == 0 {
            0
        } else {
            self.maze[0].len()
        }
    }

    /// The number of rows.
    pub fn y_len(&self) -> (r: usize)
        ensures
            r == self@.rows.len(),
    {
        self.maze.len()
    }

    /// The pair `(x_len, y_len)`.
    pub fn dimensions(&self) -> (r: (usize, usize))
        ensures
            r.0 == (if self@.rows.len() == 0 {
                0
            } else {
                self@.rows[0].len()
            }),
            r.1 == self@.rows.len(),
    {
        (self.x_len(), self.y_len())
    }

    /// Whether the grid is small enough for the search's costs to fit in a
    /// `usize`, which [`Maze::try_solve`] needs.
    pub fn fits(&self) -> (r: bool)
        ensures
            r == grid_fits(self@.rows),
    {
        let w = width_of(&self.maze);
        match w.checked_mul(self.maze.len()) {
            Some(cells) => cells <= usize::MAX / 64,
            None => false,
        }
    }

    /// Two of the start, end, wall and separator symbols coincide.
    fn are_chars_invalid(&self) -> (r: bool)
        ensures
            r == self@.chars_conflict(),
    {
        self.end_char == self.start_char || self.start_char == self.separator || self.end_char
            == self.separator || self.wall_char == self.separator || self.wall_char
            == self.start_char || self.wall_char == self.end_char
    }

    /// Solves the maze, keeping the path.
    ///
    /// Fails when the start or the end symbol does not occur, when two of the
    /// start, end, wall and separator symbols coincide, and when no path
    /// exists; the maze is then unchanged.
    pub fn try_solve(&mut self) -> (r: Result<(), Error>)
        requires
            old(self).wf(),
            grid_fits(old(self)@.rows),
        ensures
            final(self).wf(),
            old(self)@.start is None || old(self)@.end is None ==> fails_with(
                r,
                ErrorKind::StartEndNotSet,
            ) && final(self)@ == old(self)@,
            old(self)@.start is Some && old(self)@.end is Some && old(self)@.chars_conflict()
                ==> fails_with(r, ErrorKind::InvalidCharacters) && final(self)@ == old(self)@,
            old(self)@.start is Some && old(self)@.end is Some && !old(self)@.chars_conflict()
                ==> match solve_spec(old(self)@.problem()) {
                Some(path) => r is Ok && final(self)@ == (MazeView { path: Some(path), ..old(self)@ }),
                None => fails_with(r, ErrorKind::MazeIsNotSolvable) && final(self)@ == old(self)@,
            },
            r is Ok ==> final(self)@.path is Some && is_path(
                old(self)@.rows,
                old(self)@.wall_char,
                final(self)@.path->Some_0,
                old(self)@.start->Some_0,
                old(self)@.end->Some_0,
            ),
            fails_with(r, ErrorKind::MazeIsNotSolvable) ==> !reachable(
                old(self)@.rows,
                old(self)@.wall_char,
                old(self)@.start->Some_0,
                old(self)@.end->Some_0,
            ),
    {
        match (self.start, self.end) {
            (Some(start), Some(end)) => {
                if self.are_chars_invalid() {
                    return Err(Error::from(ErrorKind::InvalidCharacters));
                }
                match solve(&self.maze, self.wall_char, Some(start), Some(end)) {
                    Ok(path) => {
                        proof {
                            let rows = old(self)@.rows;
                            assert(is_first(rows, old(self)@.start_char, start));
                            let p = path@;
                            assert forall|i: int| 0 <= i < p.len() implies passable_at(
                                rows,
                                old(self)@.wall_char,
                                #[trigger] p[i],
                            ) by {
                                if i > 0 {
                                    assert(passable_at(rows, old(self)@.wall_char, p[i]));
                                }
                            }
                        }
                        self.path = Some(path);
                        Ok(())
                    },
                    Err(kind) => Err(Error::from(kind)),
                }
            },
            _ => Err(Error::from(ErrorKind::StartEndNotSet)),
        }
    }

    /// The path from start to end as `(x, y)` pairs; fails when the maze is
    /// not solved.
    pub fn get_path(&self) -> (r: Result<Vec<(usize, usize)>, Error>)
        ensures
            match self@.path {
                Some(p) => r is Ok && r->Ok_0@ == pairs(p),
                None => fails_with(r, ErrorKind::MazeNotSolved),
            },
    {
        match &self.path {
            Some(path) => {
                let mut out: Vec<(usize, usize)> = Vec::new();
                for i in 0..path.len()
                    invariant
                        out@ == pairs(path@.take(i as int)),
                {
                    out.push((path[i].x, path[i].y));
                    assert(pairs(path@.take(i + 1)) =~= pairs(path@.take(i as int)).push(
                        (path[i as int].x, path[i as int].y),
                    ));
                }
                assert(path@.take(path.len() as int) =~= path@);
                Ok(out)
            },
            None => Err(Error::from(ErrorKind::MazeNotSolved)),
        }
    }
}

impl Default for Maze {
    /// The same as [`Maze::new`].
    fn default() -> (r: Maze)
        ensures
            r.wf(),
            r@.rows == seq![Seq::<char>::empty()],
            r@.start is None,
            r@.end is None,
            r@.path is None,
            r@.start_char == 'S',
            r@.end_char == 'E',
            r@.wall_char == 'W',
            r@.path_char == 'X',
            r@.separator == '\\',
    {
        Maze::new()
    }
}

} // verus!
