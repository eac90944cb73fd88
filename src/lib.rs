//! Paths through text mazes, found by an A* search over eight directions.
//!
//! A maze is a grid of characters: one character marks walls, one the start
//! and one the end. The search moves straight (cost 10) or diagonally
//! (cost 14) and is guided by a Euclidean distance estimate. A path it finds
//! always leads from start to end through open cells, and it reports a maze
//! unsolvable only when walls cut the end off; where the estimate is
//! consistent, the path is a cheapest one.
pub mod cheapest;
pub mod cost;
pub mod error;
pub mod frontier;
pub mod grid;
pub mod laws;
pub mod maze;
pub mod pathfinding;
pub mod position;
pub mod search;
pub mod search_inv;
pub mod text;

pub use error::{Error, ErrorKind};
pub use maze::Maze;
pub use pathfinding::path_finder;
pub use position::Position;
