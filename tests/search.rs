use astar::cost::step_cost;
use astar::search::{solve, Node};
use astar::{path_finder, ErrorKind, Position};

fn grid(v: &[&str]) -> Vec<Vec<char>> {
    v.iter().map(|r| r.chars().collect()).collect()
}

fn cost(path: &[Position]) -> usize {
    path.windows(2).map(|w| step_cost(w[0], w[1])).sum()
}

fn adjacent(a: Position, b: Position) -> bool {
    a != b && a.x.abs_diff(b.x) <= 1 && a.y.abs_diff(b.y) <= 1
}

#[test]
fn start_equal_to_end_gives_the_start_alone() {
    let g = grid(&["...", ".W.", "..."]);
    let p = Position::new(2, 1);
    let path = solve(&g, 'W', Some(p), Some(p)).unwrap();
    assert_eq!(path, vec![p]);
    assert_eq!(cost(&path), 0);
}

#[test]
fn missing_endpoint_is_reported() {
    let g = grid(&["..."]);
    let p = Position::new(0, 0);
    assert_eq!(solve(&g, 'W', None, Some(p)).unwrap_err(), ErrorKind::StartEndNotSet);
    assert_eq!(solve(&g, 'W', Some(p), None).unwrap_err(), ErrorKind::StartEndNotSet);
}

#[test]
fn found_paths_are_valid_walks() {
    let g = grid(&[
        "........W.",
        ".WWWWW..W.",
        ".W...W..W.",
        ".W.W.W.WW.",
        ".W.W...W..",
        ".W.WWWWW.W",
        "...W......",
    ]);
    let start = Position::new(0, 0);
    let end = Position::new(4, 2);
    let path = solve(&g, 'W', Some(start), Some(end)).unwrap();
    assert_eq!(path[0], start);
    assert_eq!(*path.last().unwrap(), end);
    for w in path.windows(2) {
        assert!(adjacent(w[0], w[1]));
    }
    for p in &path {
        assert_ne!(g[p.y][p.x], 'W');
    }
    assert_eq!(solve(&g, 'W', Some(start), Some(end)).unwrap(), path);
}

#[test]
fn cut_off_goal_is_unsolvable() {
    let g = grid(&["..W..", "..W..", "WWW..", "....."]);
    let r = solve(&g, 'W', Some(Position::new(0, 0)), Some(Position::new(4, 3)));
    assert_eq!(r.unwrap_err(), ErrorKind::MazeIsNotSolvable);
}

#[test]
fn node_costs() {
    let a = Node { position: Position::new(1, 1), g_cost: 20, h_cost: 30 };
    let b = Node { position: Position::new(2, 1), g_cost: 10, h_cost: 40 };
    let c = Node { position: Position::new(2, 2), g_cost: 30, h_cost: 10 };
    assert_eq!(a.f_cost(), 50);
    assert!(a.lower_cost(&b) && !b.lower_cost(&a));
    assert!(b.lower_cost(&c) == false && c.lower_cost(&b));
    let d = Node::new(Position::new(2, 2), &a, Position::new(4, 4));
    assert_eq!(d.g_cost, 34);
    assert_eq!(d.h_cost, 28);
}

#[test]
fn neighbours_in_direction_order() {
    let g = grid(&["W..", "...", "..W"]);
    let centre = Node { position: Position::new(1, 1), g_cost: 0, h_cost: 0 };
    let ns = centre.neighbours(&g, 'W', Position::new(0, 2));
    let positions: Vec<(usize, usize)> = ns.iter().map(|n| (n.position.x, n.position.y)).collect();
    assert_eq!(positions, vec![(0, 1), (1, 0), (2, 0), (2, 1), (1, 2), (0, 2)]);
    assert_eq!(ns[2].g_cost, 14);
    assert_eq!(ns[3].g_cost, 10);
    assert_eq!(ns[5].h_cost, 0);
    let corner = Node { position: Position::new(0, 0), g_cost: 5, h_cost: 0 };
    assert_eq!(corner.neighbours(&g, 'W', Position::new(0, 0)).len(), 3);
    assert!(Node::is_valid(&g, 'W', 1, 0));
    assert!(!Node::is_valid(&g, 'W', 0, 0));
    assert!(!Node::is_valid(&g, 'W', 3, 0));
}

#[test]
fn inline_path_finder() {
    assert_eq!(path_finder("..X"), Ok(vec![(0, 0), (0, 1), (0, 2)]));
    assert_eq!(
        path_finder(".WX\\.W.\\..."),
        Ok(vec![(0, 0), (1, 0), (2, 1), (1, 2), (0, 2)])
    );
    assert_eq!(path_finder(".W.\\WWW\\..X"), Err("Maze is not solvable!"));
    assert_eq!(path_finder("..."), Err("Maze is not solvable!"));
}
