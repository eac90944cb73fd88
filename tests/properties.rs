//! The search's paths against an exhaustive shortest-path search.
//!
//! Known deviation from provably optimal A*: the estimate rounds the
//! straight-line distance down but does not account for diagonal steps
//! costing 14 rather than 10 times the square root of two, so eight or more
//! diagonal steps from the goal it can overestimate. Together with never
//! reopening a closed cell, the search is then not guaranteed to find a
//! cheapest path. On grids as small as the ones below the estimate is
//! consistent (it never falls by more than a step's cost), and the search
//! finds a cheapest path.
use astar::cost::step_cost;
use astar::search::solve;
use astar::Position;

fn grid(v: &[&str]) -> Vec<Vec<char>> {
    v.iter().map(|r| r.chars().collect()).collect()
}

/// The cheapest cost from `start` to every cell, by repeated relaxation.
fn cheapest(g: &[Vec<char>], start: Position) -> Vec<Vec<Option<usize>>> {
    let h = g.len();
    let w = g[0].len();
    let mut best = vec![vec![None; w]; h];
    best[start.y][start.x] = Some(0);
    let mut changed = true;
    while changed {
        changed = false;
        for y in 0..h {
            for x in 0..w {
                let Some(c) = best[y][x] else { continue };
                for dy in -1i64..=1 {
                    for dx in -1i64..=1 {
                        let (nx, ny) = (x as i64 + dx, y as i64 + dy);
                        if (dx, dy) == (0, 0) || nx < 0 || ny < 0 || nx >= w as i64 || ny >= h as i64 {
                            continue;
                        }
                        let (nx, ny) = (nx as usize, ny as usize);
                        if g[ny][nx] == 'W' {
                            continue;
                        }
                        let nc = c + step_cost(Position::new(x, y), Position::new(nx, ny));
                        if best[ny][nx].map_or(true, |b| nc < b) {
                            best[ny][nx] = Some(nc);
                            changed = true;
                        }
                    }
                }
            }
        }
    }
    best
}

fn check_against_exhaustive(g: &[Vec<char>], start: Position) {
    let best = cheapest(g, start);
    for y in 0..g.len() {
        for x in 0..g[0].len() {
            if g[y][x] == 'W' {
                continue;
            }
            let end = Position::new(x, y);
            match solve(&g.to_vec(), 'W', Some(start), Some(end)) {
                Ok(path) => {
                    let c: usize = path.windows(2).map(|w| step_cost(w[0], w[1])).sum();
                    assert_eq!(Some(c), best[y][x], "to ({x}, {y})");
                }
                Err(_) => assert_eq!(best[y][x], None, "to ({x}, {y})"),
            }
        }
    }
}

#[test]
fn costs_match_exhaustive_search_on_open_grid() {
    check_against_exhaustive(&grid(&["......", "......", "......", "......", "......"]), Position::new(0, 0));
}

#[test]
fn costs_match_exhaustive_search_with_walls() {
    let g = grid(&[".....W..", ".WWW.W..", "...W....", "W..W.WWW", "..W.....", "....WW.W"]);
    check_against_exhaustive(&g, Position::new(0, 0));
    check_against_exhaustive(&g, Position::new(7, 0));
}
