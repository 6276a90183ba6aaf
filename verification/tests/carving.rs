use mazey::maze::Maze;
use mazey::maze_builder::{contains_cell, remove_cell, MazeBuilder};
use mazey::pair::Pair;
use mazey::solver::Solver;
use mazey::util::{CellReachType, Coord, EAST, NORTH, SOUTH, WEST};
use rand::rngs::StdRng;
use rand::SeedableRng;
use std::collections::VecDeque;

fn passages(maze: &Maze) -> usize {
    let mut count = 0;
    for y in 0..maze.height {
        for x in 0..maze.width {
            for dir in [EAST, SOUTH] {
                let here = Pair::new(x, y);
                if maze.neighbour(here, dir).is_some() && maze.is_open(here, dir) {
                    count += 1;
                }
            }
        }
    }
    count
}

fn walls_match(maze: &Maze) -> bool {
    for y in 0..maze.height {
        for x in 0..maze.width {
            for dir in 0..4 {
                let here = Pair::new(x, y);
                match maze.neighbour(here, dir) {
                    Some(there) => {
                        if maze.is_open(here, dir) != maze.is_open(there, (dir + 2) % 4) {
                            return false;
                        }
                    }
                    None => {
                        if maze.is_open(here, dir) {
                            return false;
                        }
                    }
                }
            }
        }
    }
    true
}

fn all_reached_from(maze: &Maze, start: Coord) -> bool {
    let (_, map) = Solver::build_distance_map(maze, start);
    map.iter().all(|row| row.iter().all(|d| *d != -1))
}

fn is_spanning_tree(maze: &Maze) -> bool {
    walls_match(maze)
        && passages(maze) == maze.width * maze.height - 1
        && all_reached_from(maze, Pair::new(0, 0))
}

#[test]
fn binary_tree_gives_spanning_trees() {
    for seed in 0..20u64 {
        for (w, h) in [(1, 1), (1, 4), (4, 1), (2, 2), (5, 3), (8, 8)] {
            let mut rng = StdRng::seed_from_u64(seed);
            let mut maze = Maze::new_full(w, h);
            MazeBuilder::binary_tree_maze_creation(&mut maze, &mut rng);
            assert!(is_spanning_tree(&maze));
        }
    }
}

#[test]
fn binary_tree_opens_north_or_east() {
    let mut saw_north = false;
    let mut saw_east = false;
    for seed in 0..10u64 {
        let mut rng = StdRng::seed_from_u64(seed);
        let mut maze = Maze::new_full(6, 5);
        MazeBuilder::binary_tree_maze_creation(&mut maze, &mut rng);
        for y in 0..5 {
            for x in 0..6 {
                let north = maze.is_open(Pair::new(x, y), NORTH);
                let east = maze.is_open(Pair::new(x, y), EAST);
                if y == 0 && x == 5 {
                    assert!(!north && !east);
                } else if y == 0 {
                    assert!(east && !north);
                } else if x == 5 {
                    assert!(north && !east);
                } else {
                    assert!(north != east);
                    saw_north = saw_north || north;
                    saw_east = saw_east || east;
                }
            }
        }
    }
    // The coin falls both ways.
    assert!(saw_north);
    assert!(saw_east);
}

#[test]
fn binary_tree_step_follows_the_coin() {
    let mut maze = Maze::new_full(3, 3);
    MazeBuilder::binary_tree_step(&mut maze, 0, 0, 0);
    assert!(maze.is_open(Pair::new(0, 0), EAST));
    MazeBuilder::binary_tree_step(&mut maze, 2, 1, 1);
    assert!(maze.is_open(Pair::new(2, 1), NORTH));
    MazeBuilder::binary_tree_step(&mut maze, 1, 1, 0);
    assert!(maze.is_open(Pair::new(1, 1), NORTH));
    assert!(!maze.is_open(Pair::new(1, 1), EAST));
    MazeBuilder::binary_tree_step(&mut maze, 0, 2, 1);
    assert!(maze.is_open(Pair::new(0, 2), EAST));
    assert!(!maze.is_open(Pair::new(0, 2), NORTH));
    assert_eq!(passages(&maze), 4);
}

#[test]
fn sidewinder_gives_spanning_trees() {
    for seed in 0..20u64 {
        for (w, h) in [(1, 1), (1, 4), (4, 1), (2, 2), (5, 3), (8, 8)] {
            let mut rng = StdRng::seed_from_u64(seed);
            let mut maze = Maze::new_full(w, h);
            MazeBuilder::sidewinder_maze_creation(&mut maze, &mut rng);
            assert!(is_spanning_tree(&maze));
            for x in 0..w - 1 {
                assert!(maze.is_open(Pair::new(x, 0), EAST));
            }
        }
    }
}

#[test]
fn sidewinder_has_one_way_north_from_each_run() {
    let mut longest_run = 0;
    let mut saw_offset = false;
    for seed in 0..10u64 {
        let mut rng = StdRng::seed_from_u64(seed);
        let mut maze = Maze::new_full(7, 6);
        MazeBuilder::sidewinder_maze_creation(&mut maze, &mut rng);
        for y in 1..6 {
            let mut norths = 0;
            let mut run = 0;
            for x in 0..7 {
                run += 1;
                if maze.is_open(Pair::new(x, y), NORTH) {
                    norths += 1;
                }
                if !maze.is_open(Pair::new(x, y), EAST) {
                    assert_eq!(norths, 1);
                    if run > 1 && !maze.is_open(Pair::new(x, y), NORTH) {
                        saw_offset = true;
                    }
                    longest_run = longest_run.max(run);
                    norths = 0;
                    run = 0;
                }
            }
            assert_eq!(run, 0);
        }
    }
    assert!(longest_run > 1);
    assert!(saw_offset);
}

#[test]
fn sidewinder_step_by_step() {
    let mut maze = Maze::new_full(3, 2);
    assert_eq!(MazeBuilder::sidewinder_step(&mut maze, 0, 0, 0, 0, 0), 0);
    assert!(maze.is_open(Pair::new(0, 0), EAST));
    assert_eq!(MazeBuilder::sidewinder_step(&mut maze, 1, 0, 0, 0, 0), 0);
    assert_eq!(MazeBuilder::sidewinder_step(&mut maze, 2, 0, 0, 0, 0), 0);
    assert_eq!(passages(&maze), 2);
    assert_eq!(MazeBuilder::sidewinder_step(&mut maze, 0, 1, 0, 1, 0), 1);
    assert!(maze.is_open(Pair::new(0, 1), EAST));
    assert_eq!(MazeBuilder::sidewinder_step(&mut maze, 1, 1, 1, 1, 0), 2);
    assert_eq!(MazeBuilder::sidewinder_step(&mut maze, 2, 1, 2, 0, 2), 0);
    assert!(maze.is_open(Pair::new(0, 1), NORTH));
    assert!(!maze.is_open(Pair::new(1, 1), NORTH));
    assert!(!maze.is_open(Pair::new(2, 1), NORTH));
    assert!(is_spanning_tree(&maze));
}

#[test]
fn growing_tree_gives_spanning_trees() {
    for seed in 0..20u64 {
        for (w, h) in [(1, 1), (1, 4), (4, 1), (2, 2), (5, 3), (8, 8)] {
            for start in [Pair::new(0, 0), Pair::new(w - 1, h - 1), Pair::new(w / 2, h / 2)] {
                let mut rng = StdRng::seed_from_u64(seed);
                let mut maze = Maze::new_full(w, h);
                MazeBuilder::random_maze_creation(&mut maze, start, &mut rng);
                assert!(is_spanning_tree(&maze));
            }
        }
    }
}

#[test]
fn growing_tree_four_by_four_is_solved() {
    let mut rng = StdRng::seed_from_u64(2024);
    let mut maze = Maze::new_full(4, 4);
    let start = Pair::new(0, 0);
    let finish = Pair::new(3, 3);
    MazeBuilder::random_maze_creation(&mut maze, start, &mut rng);
    let path = Solver::dijkstra_path_finding_solver(&maze, start, finish);
    let (max_distance, map) = Solver::build_distance_map(&maze, start);
    assert_eq!(path.len() as i32 - 1, map[3][3]);
    assert_eq!(path[0], start);
    assert_eq!(path[path.len() - 1], finish);
    let mut marked = 0;
    for row in &map {
        for d in row {
            assert_ne!(*d, -1);
            assert!(*d <= max_distance);
            marked += 1;
        }
    }
    assert_eq!(marked, 16);
    assert_eq!(passages(&maze), 15);
}

#[test]
fn growing_tree_varies_with_the_shuffle() {
    // From the corner of a 2 x 2 grid the tree leaves either through the east or
    // through the south; which of the four walls stays closed depends on the
    // order in which the neighbours come.
    let mut east_closed = false;
    let mut south_closed = false;
    for seed in 0..64u64 {
        let mut rng = StdRng::seed_from_u64(seed);
        let mut maze = Maze::new_full(2, 2);
        MazeBuilder::random_maze_creation(&mut maze, Pair::new(0, 0), &mut rng);
        assert!(is_spanning_tree(&maze));
        east_closed = east_closed || !maze.is_open(Pair::new(0, 0), EAST);
        south_closed = south_closed || !maze.is_open(Pair::new(0, 0), SOUTH);
    }
    assert!(east_closed);
    assert!(south_closed);
}

#[test]
fn aldous_broder_gives_spanning_trees() {
    for seed in 0..20u64 {
        for (w, h) in [(1, 1), (1, 4), (4, 1), (2, 2), (5, 3), (6, 6)] {
            let mut rng = StdRng::seed_from_u64(seed);
            let mut maze = Maze::new_full(w, h);
            let done =
                MazeBuilder::aldous_broder_maze_creation(&mut maze, Pair::new(0, 0), &mut rng, 1_000_000);
            assert!(done);
            assert!(is_spanning_tree(&maze));
        }
    }
}

#[test]
fn aldous_broder_stops_at_the_limit() {
    let mut rng = StdRng::seed_from_u64(5);
    let mut maze = Maze::new_full(6, 6);
    let done = MazeBuilder::aldous_broder_maze_creation(&mut maze, Pair::new(2, 2), &mut rng, 10);
    assert!(!done);
    assert!(walls_match(&maze));
    let open = passages(&maze);
    assert!(open >= 1 && open <= 10);
    // What has been carved is a tree around the start.
    let (_, map) = Solver::build_distance_map(&maze, Pair::new(2, 2));
    let visited = map.iter().flatten().filter(|d| **d != -1).count();
    assert_eq!(visited, open + 1);

    let mut single = Maze::new_full(1, 1);
    assert!(MazeBuilder::aldous_broder_maze_creation(&mut single, Pair::new(0, 0), &mut rng, 0));
    let mut pair = Maze::new_full(2, 1);
    assert!(!MazeBuilder::aldous_broder_maze_creation(&mut pair, Pair::new(0, 0), &mut rng, 0));
    assert_eq!(passages(&pair), 0);
}

#[test]
fn aldous_broder_step_by_step() {
    let mut maze = Maze::new_full(2, 2);
    let mut unreached = MazeBuilder::generate_unreachable_cells(&maze);
    assert_eq!(
        unreached,
        vec![Pair::new(0, 0), Pair::new(1, 0), Pair::new(0, 1), Pair::new(1, 1)]
    );
    assert!(remove_cell(&mut unreached, Pair::new(0, 0)));
    // The corner has its neighbours to the east (number 0) and south (number 1).
    let next = MazeBuilder::aldous_broder_step(&mut maze, &mut unreached, Pair::new(0, 0), 1);
    assert_eq!(next, Pair::new(0, 1));
    assert!(maze.is_open(Pair::new(0, 0), SOUTH));
    assert_eq!(unreached, vec![Pair::new(1, 0), Pair::new(1, 1)]);
    // Back to a cell that has been reached: nothing is opened.
    let next = MazeBuilder::aldous_broder_step(&mut maze, &mut unreached, next, 0);
    assert_eq!(next, Pair::new(0, 0));
    assert_eq!(passages(&maze), 1);
    assert_eq!(unreached.len(), 2);
    let next = MazeBuilder::aldous_broder_step(&mut maze, &mut unreached, next, 0);
    assert_eq!(next, Pair::new(1, 0));
    assert!(maze.is_open(Pair::new(1, 0), WEST));
    assert_eq!(unreached, vec![Pair::new(1, 1)]);
}

#[test]
fn wilson_on_three_by_three_ends_within_bounds() {
    for seed in 0..200u64 {
        let mut rng = StdRng::seed_from_u64(seed);
        let mut maze = Maze::new_full(3, 3);
        let done = MazeBuilder::wilson_maze_creation(&mut maze, Pair::new(1, 1), &mut rng, 100_000);
        assert!(done);
        assert!(is_spanning_tree(&maze));
        assert_eq!(passages(&maze), 8);
    }
}

#[test]
fn wilson_gives_spanning_trees() {
    for seed in 0..20u64 {
        for (w, h) in [(1, 1), (1, 4), (4, 1), (2, 2), (5, 3), (7, 7)] {
            let mut rng = StdRng::seed_from_u64(seed);
            let mut maze = Maze::new_full(w, h);
            let start = Pair::new(w - 1, 0);
            let done = MazeBuilder::wilson_maze_creation(&mut maze, start, &mut rng, 10_000_000);
            assert!(done);
            assert!(is_spanning_tree(&maze));
            assert!(maze.cell_at(start).reachable());
        }
    }
}

#[test]
fn wilson_stops_at_the_limit() {
    let mut rng = StdRng::seed_from_u64(11);
    let mut maze = Maze::new_full(5, 5);
    let done = MazeBuilder::wilson_maze_creation(&mut maze, Pair::new(0, 0), &mut rng, 3);
    assert!(!done);
    assert!(walls_match(&maze));
    assert!(passages(&maze) <= 3);
    assert!(maze.cell_at(Pair::new(0, 0)).reachable());
    let mut single = Maze::new_full(1, 1);
    assert!(MazeBuilder::wilson_maze_creation(&mut single, Pair::new(0, 0), &mut rng, 0));
}

#[test]
fn wilson_walk_erases_loops() {
    let mut maze = Maze::new_full(3, 3);
    maze.mark_reached(Pair::new(2, 2));
    let mut path = vec![Pair::new(0, 0)];
    let mut dirs: Vec<usize> = vec![];
    // East, south, west, north: a loop back to the first cell.
    assert!(!MazeBuilder::wilson_walk_step(&maze, &mut path, &mut dirs, 0));
    assert_eq!(path, vec![Pair::new(0, 0), Pair::new(1, 0)]);
    assert_eq!(dirs, vec![EAST]);
    assert!(!MazeBuilder::wilson_walk_step(&maze, &mut path, &mut dirs, 1));
    assert_eq!(path, vec![Pair::new(0, 0), Pair::new(1, 0), Pair::new(1, 1)]);
    assert_eq!(dirs, vec![EAST, SOUTH]);
    assert!(!MazeBuilder::wilson_walk_step(&maze, &mut path, &mut dirs, 3));
    assert_eq!(dirs, vec![EAST, SOUTH, WEST]);
    assert!(!MazeBuilder::wilson_walk_step(&maze, &mut path, &mut dirs, 0));
    assert_eq!(path, vec![Pair::new(0, 0)]);
    assert_eq!(dirs, vec![]);
    // South twice, then a step back north: only the last cell is erased.
    assert!(!MazeBuilder::wilson_walk_step(&maze, &mut path, &mut dirs, 1));
    assert!(!MazeBuilder::wilson_walk_step(&maze, &mut path, &mut dirs, 2));
    assert_eq!(path, vec![Pair::new(0, 0), Pair::new(0, 1), Pair::new(0, 2)]);
    assert_eq!(dirs, vec![SOUTH, SOUTH]);
    assert!(!MazeBuilder::wilson_walk_step(&maze, &mut path, &mut dirs, 0));
    assert_eq!(path, vec![Pair::new(0, 0), Pair::new(0, 1)]);
    assert_eq!(dirs, vec![SOUTH]);
    // Now straight to the marked cell.
    assert!(!MazeBuilder::wilson_walk_step(&maze, &mut path, &mut dirs, 2));
    assert!(!MazeBuilder::wilson_walk_step(&maze, &mut path, &mut dirs, 1));
    assert!(MazeBuilder::wilson_walk_step(&maze, &mut path, &mut dirs, 1));
    assert_eq!(
        path,
        vec![
            Pair::new(0, 0),
            Pair::new(0, 1),
            Pair::new(0, 2),
            Pair::new(1, 2),
            Pair::new(2, 2),
        ]
    );
    assert_eq!(dirs, vec![SOUTH, SOUTH, EAST, EAST]);
}

#[test]
fn cell_lists() {
    let maze = Maze::new_full(3, 2);
    let mut cells = MazeBuilder::generate_unreachable_cells(&maze);
    assert_eq!(cells.len(), 6);
    for y in 0..2 {
        for x in 0..3 {
            assert!(contains_cell(&cells, Pair::new(x, y)));
            assert_eq!(cells[y * 3 + x], Pair::new(x, y));
        }
    }
    assert!(!contains_cell(&cells, Pair::new(3, 0)));
    assert!(!remove_cell(&mut cells, Pair::new(3, 0)));
    assert_eq!(cells.len(), 6);
    assert!(remove_cell(&mut cells, Pair::new(1, 0)));
    assert!(!contains_cell(&cells, Pair::new(1, 0)));
    assert_eq!(
        cells,
        vec![
            Pair::new(0, 0),
            Pair::new(2, 0),
            Pair::new(0, 1),
            Pair::new(1, 1),
            Pair::new(2, 1),
        ]
    );
    assert!(!remove_cell(&mut cells, Pair::new(1, 0)));
    let none = Maze::new_full(0, 0);
    assert_eq!(MazeBuilder::generate_unreachable_cells(&none), vec![]);
}

#[test]
fn neighbours_by_reach_after_carving() {
    let mut rng = StdRng::seed_from_u64(1);
    let mut maze = Maze::new_full(4, 4);
    MazeBuilder::binary_tree_maze_creation(&mut maze, &mut rng);
    for y in 0..4 {
        for x in 0..4 {
            let here = Pair::new(x, y);
            let all = maze.neighbours(here, CellReachType::Anything);
            assert_eq!(maze.neighbours(here, CellReachType::ReachableOnly), all);
            assert_eq!(maze.neighbours(here, CellReachType::UnreachableOnly), vec![]);
        }
    }
}

#[test]
fn maze_methods_carve_and_solve() {
    let mut rng = StdRng::seed_from_u64(3);
    let mut maze = Maze::new_full(5, 4);
    maze.binary_tree_maze_creation(&mut rng);
    assert!(is_spanning_tree(&maze));
    let mut maze = Maze::new_full(5, 4);
    maze.sidewinder_maze_creation(&mut rng);
    assert!(is_spanning_tree(&maze));
    let mut maze = Maze::new_full(5, 4);
    maze.random_maze_creation(Pair::new(2, 2), &mut rng);
    assert!(is_spanning_tree(&maze));
    let start = Pair::new(0, 0);
    let finish = Pair::new(4, 3);
    let path = maze.dijkstra_path_finding(start, finish);
    assert_eq!(path, Solver::dijkstra_path_finding_solver(&maze, start, finish));
    let (_, map) = Solver::build_distance_map(&maze, start);
    assert_eq!(path.len() as i32 - 1, map[3][4]);
}

#[test]
fn paths_in_carved_mazes_are_walks() {
    for seed in 0..10u64 {
        let mut rng = StdRng::seed_from_u64(seed);
        let mut maze = Maze::new_full(6, 6);
        assert!(MazeBuilder::wilson_maze_creation(&mut maze, Pair::new(0, 0), &mut rng, 1_000_000));
        for (start, finish) in [
            (Pair::new(0, 0), Pair::new(5, 5)),
            (Pair::new(5, 0), Pair::new(0, 5)),
            (Pair::new(3, 3), Pair::new(3, 3)),
            (Pair::new(2, 4), Pair::new(4, 1)),
        ] {
            let path = Solver::dijkstra_path_finding_solver(&maze, start, finish);
            let (_, map) = Solver::build_distance_map(&maze, start);
            assert_eq!(path[0], start);
            assert_eq!(path[path.len() - 1], finish);
            assert_eq!(path.len() as i32 - 1, map[finish.y][finish.x]);
            for i in 0..path.len() - 1 {
                let step = (0..4).any(|dir| {
                    maze.neighbour(path[i], dir) == Some(path[i + 1]) && maze.is_open(path[i], dir)
                });
                assert!(step);
                assert_eq!(map[path[i + 1].y][path[i + 1].x], map[path[i].y][path[i].x] + 1);
            }
        }
    }
}

#[test]
fn growing_tree_step_works_on_the_top_of_the_stack() {
    let mut maze = Maze::new_full(3, 3);
    let mut unreached = MazeBuilder::generate_unreachable_cells(&maze);
    assert!(remove_cell(&mut unreached, Pair::new(0, 0)));
    assert!(remove_cell(&mut unreached, Pair::new(1, 1)));
    maze.connect_cells(0, 0, EAST);
    assert!(remove_cell(&mut unreached, Pair::new(1, 0)));
    let mut stack: VecDeque<Coord> = VecDeque::new();
    stack.push_back(Pair::new(0, 0));
    stack.push_back(Pair::new(1, 1));
    // The unreached neighbours of (1, 1), in an order of our choice.
    let order = vec![
        (SOUTH, Pair::new(1, 2)),
        (WEST, Pair::new(0, 1)),
        (EAST, Pair::new(2, 1)),
    ];
    MazeBuilder::growing_tree_step(&mut maze, &mut unreached, &mut stack, &order, 2);
    assert_eq!(
        stack,
        VecDeque::from(vec![Pair::new(0, 0), Pair::new(1, 2), Pair::new(0, 1)])
    );
    assert!(maze.is_open(Pair::new(1, 1), SOUTH));
    assert!(maze.is_open(Pair::new(1, 2), NORTH));
    assert!(maze.is_open(Pair::new(1, 1), WEST));
    assert!(maze.is_open(Pair::new(0, 1), EAST));
    assert!(!maze.is_open(Pair::new(1, 1), EAST));
    assert!(!maze.is_open(Pair::new(1, 1), NORTH));
    assert_eq!(passages(&maze), 3);
    assert_eq!(
        unreached,
        vec![Pair::new(2, 0), Pair::new(2, 1), Pair::new(0, 2), Pair::new(2, 2)]
    );
    // With a count of 0 the cell only leaves the stack.
    let order = vec![(EAST, Pair::new(2, 1))];
    MazeBuilder::growing_tree_step(&mut maze, &mut unreached, &mut stack, &order, 0);
    assert_eq!(stack, VecDeque::from(vec![Pair::new(0, 0), Pair::new(1, 2)]));
    assert_eq!(passages(&maze), 3);
    assert_eq!(unreached.len(), 4);
}

#[test]
fn walks_stop_at_once_at_a_limit_of_zero() {
    let mut rng = StdRng::seed_from_u64(9);
    let mut maze = Maze::new_full(2, 1);
    assert!(!MazeBuilder::aldous_broder_maze_creation(&mut maze, Pair::new(0, 0), &mut rng, 0));
    assert_eq!(passages(&maze), 0);
    let mut maze = Maze::new_full(2, 1);
    assert!(!MazeBuilder::wilson_maze_creation(&mut maze, Pair::new(1, 0), &mut rng, 0));
    assert_eq!(passages(&maze), 0);
    assert!(maze.cell_at(Pair::new(1, 0)).reachable());
}
