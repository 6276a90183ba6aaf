//! Mazes on rectangular grids and on grids of rings: carving algorithms that leave a
//! perfect maze, and breadth-first search for distances and shortest ways.

pub mod aldous_broder;
pub mod ascii_drawer;
pub mod binary_tree;
pub mod cell;
pub mod circle_builder;
pub mod circle_graph;
pub mod circle_maze;
pub mod circle_maze_cell;
pub mod circle_solver;
pub mod circle_tree;
pub mod construction;
pub mod graph;
pub mod growing_tree;
pub mod maze;
pub mod maze_builder;
pub mod pair;
pub mod random;
pub mod sidewinder;
pub mod solver;
pub mod tree;
pub mod util;
pub mod walks;
pub mod wilson;
