use astar::cost::step_cost;
use astar::{Error, ErrorKind, Maze, Position};

fn solved_path(text: &str) -> Vec<(usize, usize)> {
    let mut maze = Maze::new().load(text);
    maze.try_solve().unwrap();
    maze.get_path().unwrap()
}

fn cost(path: &[(usize, usize)]) -> usize {
    path.windows(2)
        .map(|w| step_cost(Position::new(w[0].0, w[0].1), Position::new(w[1].0, w[1].1)))
        .sum()
}

#[test]
fn open_three_by_three_goes_diagonally() {
    let path = solved_path("S..\n...\n..E");
    assert_eq!(path, vec![(0, 0), (1, 1), (2, 2)]);
    assert_eq!(cost(&path), 28);
}

#[test]
fn single_row_goes_straight() {
    let path = solved_path("S.E");
    assert_eq!(path, vec![(0, 0), (1, 0), (2, 0)]);
    assert_eq!(cost(&path), 20);
}

#[test]
fn enclosed_end_is_unsolvable() {
    let mut maze = Maze::new().load("S....\n.WWW.\n.WEW.\n.WWW.\n.....");
    let err = maze.try_solve().unwrap_err();
    assert_eq!(err.kind(), ErrorKind::MazeIsNotSolvable);
    assert_eq!(maze.get_path().unwrap_err().kind(), ErrorKind::MazeNotSolved);
}

#[test]
fn wall_across_the_grid_is_unsolvable() {
    let mut maze = Maze::new().load("S.W..\n..W..\n..W.E");
    assert_eq!(maze.try_solve().unwrap_err().kind(), ErrorKind::MazeIsNotSolvable);
}

#[test]
fn equal_costs_prefer_lower_estimate_then_lower_cell() {
    // Two ways cost 34. After the start, (1, 0) and (0, 1) tie on total cost
    // and estimate; (1, 0) comes first in row order and is expanded first,
    // and the goal is reached through it.
    let path = solved_path("S.W\n.W.\n..E");
    assert_eq!(path, vec![(0, 0), (1, 0), (2, 1), (2, 2)]);
    assert_eq!(cost(&path), 34);
}

#[test]
fn missing_start_or_end() {
    let mut no_start = Maze::new().load("...\n..E");
    assert_eq!(no_start.try_solve().unwrap_err().kind(), ErrorKind::StartEndNotSet);
    let mut no_end = Maze::new().load("S..\n...");
    assert_eq!(no_end.try_solve().unwrap_err().kind(), ErrorKind::StartEndNotSet);
    let mut empty = Maze::new();
    assert_eq!(empty.try_solve().unwrap_err().kind(), ErrorKind::StartEndNotSet);
}

#[test]
fn coinciding_symbols_are_rejected() {
    let mut maze = Maze::new().load("S.E").set_walls_char('S');
    assert_eq!(maze.try_solve().unwrap_err().kind(), ErrorKind::InvalidCharacters);
    let mut maze = Maze::new().load("S.E").set_separator('E');
    assert_eq!(maze.try_solve().unwrap_err().kind(), ErrorKind::InvalidCharacters);
    let mut maze = Maze::new().load("S.E").set_end_char('S');
    assert_eq!(maze.try_solve().unwrap_err().kind(), ErrorKind::InvalidCharacters);
}

#[test]
fn path_before_solving_fails() {
    let maze = Maze::new().load("S.E");
    let err = maze.get_path().unwrap_err();
    assert_eq!(err.kind(), ErrorKind::MazeNotSolved);
    assert_eq!(err.as_str(), "Could not retrieve path, maze is not yet solved.");
}

#[test]
fn first_occurrence_wins() {
    let maze = Maze::new().load("..S.S\nS...E\nE....");
    assert_eq!(maze.start(), Some(Position::new(2, 0)));
    assert_eq!(maze.end(), Some(Position::new(4, 1)));
}

#[test]
fn custom_symbols() {
    let mut maze = Maze::new()
        .load("G.O\n.OF")
        .set_walls_char('O')
        .set_start_char('G')
        .set_end_char('F')
        .set_path_char('*');
    assert_eq!(maze.start(), Some(Position::new(0, 0)));
    assert_eq!(maze.end(), Some(Position::new(2, 1)));
    assert_eq!(maze.wall(), 'O');
    assert_eq!(maze.start_char(), 'G');
    assert_eq!(maze.end_char(), 'F');
    assert_eq!(maze.path_char(), '*');
    maze.try_solve().unwrap();
    assert_eq!(maze.get_path().unwrap(), vec![(0, 0), (1, 0), (2, 1)]);
}

#[test]
fn changing_a_symbol_to_one_absent_clears_its_place() {
    let maze = Maze::new().load("S.E").set_start_char('G');
    assert_eq!(maze.start(), None);
}

#[test]
fn inline_text_uses_the_separator() {
    let maze = Maze::new().load_inline("  S..\\...\\..E \n");
    assert_eq!(maze.dimensions(), (3, 3));
    assert_eq!(maze.field()[2], vec!['.', '.', 'E']);
    let maze = Maze::new().set_separator('/').load_inline("S./../.E");
    assert_eq!(maze.separator_char(), '/');
    assert_eq!(maze.y_len(), 3);
    assert_eq!(maze.x_len(), 2);
    assert_eq!(maze.end(), Some(Position::new(1, 2)));
}

#[test]
fn new_maze_defaults() {
    let maze = Maze::new();
    assert_eq!(maze.start_char(), 'S');
    assert_eq!(maze.end_char(), 'E');
    assert_eq!(maze.wall(), 'W');
    assert_eq!(maze.path_char(), 'X');
    assert_eq!(maze.separator_char(), '\\');
    assert_eq!(maze.dimensions(), (0, 1));
    assert_eq!(maze.field().len(), 1);
    assert!(maze.fits());
}

#[test]
fn loading_blank_text_gives_no_rows() {
    let maze = Maze::new().load(" \n ");
    assert_eq!(maze.dimensions(), (0, 0));
}

#[test]
fn error_messages() {
    assert_eq!(ErrorKind::InvalidFilePath.as_str(), "Invalid file path");
    assert_eq!(
        ErrorKind::InvalidCharacters.as_str(),
        "Characters are not unique. (start, end, wall...)"
    );
    assert_eq!(
        ErrorKind::MazeIsNotSet.as_str(),
        "Maze is not set (loaded), consider using `set` method on `Maze`."
    );
    assert_eq!(ErrorKind::MazeIsNotSolvable.as_str(), "This maze is unsolvable.");
    assert_eq!(ErrorKind::StartEndNotSet.as_str(), "Start/End are not set.");
    let e = Error::from(ErrorKind::StartEndNotSet);
    assert_eq!(e.kind(), ErrorKind::StartEndNotSet);
    assert_eq!(e.as_str(), "Start/End are not set.");
}

#[test]
fn solving_twice_gives_the_same_path() {
    let text = "S.....\n.WW.W.\n...W..\nW.W..E";
    let mut a = Maze::new().load(text);
    a.try_solve().unwrap();
    let first = a.get_path().unwrap();
    a.try_solve().unwrap();
    assert_eq!(a.get_path().unwrap(), first);
    let mut b = Maze::new().load(text).set_path_char('#');
    b.try_solve().unwrap();
    assert_eq!(b.get_path().unwrap(), first);
}

#[test]
fn default_is_new() {
    let maze = Maze::default();
    assert_eq!(maze.start_char(), 'S');
    assert_eq!(maze.separator_char(), '\\');
    assert_eq!(maze.dimensions(), Maze::new().dimensions());
}
