use mazey::circle_builder::ring_cells;
use mazey::circle_maze::CircleMaze;
use mazey::circle_maze_cell::{CircleMazeCell, CircleMazeCellDirection};
use mazey::maze_builder::MazeBuilder;
use mazey::pair::Pair;
use mazey::solver::Solver;
use mazey::util::CellReachType;
use rand::rngs::StdRng;
use rand::SeedableRng;
use std::collections::VecDeque;

fn ring_sizes(maze: &CircleMaze) -> Vec<usize> {
    maze.cells.iter().map(|ring| ring.len()).collect()
}

#[test]
fn ring_cell_new_counts_walls() {
    let hub = CircleMazeCell::new(false, 6);
    assert!(!hub.has_default_paths);
    assert_eq!(hub.north_path_count, 6);
    assert!(!hub.default_paths());
    assert_eq!(hub.north_paths(), 6);
    assert!(!hub.reachable());
    for n in 0..6 {
        assert!(!hub.is_open_at(CircleMazeCellDirection::North(n)));
    }
    let cell = CircleMazeCell::new(true, 2);
    assert!(cell.has_default_paths);
    assert_eq!(cell.north_path_count, 2);
    assert!(!cell.reachable());
    for dir in [
        CircleMazeCellDirection::East,
        CircleMazeCellDirection::South,
        CircleMazeCellDirection::West,
        CircleMazeCellDirection::North(0),
        CircleMazeCellDirection::North(1),
    ] {
        assert!(!cell.is_open_at(dir));
    }
    let bare = CircleMazeCell::new(false, 0);
    assert!(!bare.reachable());
}

#[test]
fn ring_cell_open_opens_one_wall() {
    let all = [
        CircleMazeCellDirection::East,
        CircleMazeCellDirection::South,
        CircleMazeCellDirection::West,
        CircleMazeCellDirection::North(0),
        CircleMazeCellDirection::North(1),
    ];
    for dir in all {
        let mut cell = CircleMazeCell::new(true, 2);
        cell.open(dir);
        assert!(cell.reachable());
        for other in all {
            assert_eq!(cell.is_open_at(other), other == dir);
        }
    }
    let mut hub = CircleMazeCell::new(false, 6);
    hub.open(CircleMazeCellDirection::North(4));
    for n in 0..6 {
        assert_eq!(hub.is_open_at(CircleMazeCellDirection::North(n)), n == 4);
    }
    assert!(hub.reachable());
}

#[test]
fn ring_sizes_of_four_rings() {
    let maze = CircleMaze::new(4);
    assert_eq!(maze.height, 4);
    assert_eq!(ring_sizes(&maze), vec![1, 6, 6, 12]);
}

#[test]
fn ring_sizes_follow_the_table() {
    let table: Vec<usize> = vec![
        1, 6, 6, 12, 12, 24, 24, 24, 24, 48, 48, 48, 48, 48, 48, 48, 96, 96, 96, 96, 96, 96, 96, 96,
        96, 96, 96, 96, 96, 96, 96, 96, 192, 192, 192, 192, 192, 192, 192, 192,
    ];
    for height in 0..=table.len() {
        let maze = CircleMaze::new(height);
        assert_eq!(maze.height, height);
        assert_eq!(ring_sizes(&maze), table[..height].to_vec());
    }
}

#[test]
fn ring_sizes_double_or_stay() {
    let maze = CircleMaze::new(120);
    let sizes = ring_sizes(&maze);
    for r in 1..sizes.len() - 1 {
        assert!(sizes[r + 1] == sizes[r] || sizes[r + 1] == 2 * sizes[r]);
    }
    assert_eq!(sizes[1], 6 * sizes[0]);
}

#[test]
fn ring_cells_have_their_walls() {
    let maze = CircleMaze::new(6);
    let sizes = ring_sizes(&maze);
    for r in 0..6 {
        for x in 0..sizes[r] {
            let cell = maze.cell_at(Pair::new(x, r));
            assert_eq!(cell.has_default_paths, r != 0);
            let expected = if r == 0 {
                6
            } else if r == 5 {
                0
            } else {
                sizes[r + 1] / sizes[r]
            };
            assert_eq!(cell.north_path_count, expected);
            assert!(!cell.reachable());
        }
    }
}

#[test]
fn ring_neighbours_of_the_hub() {
    let maze = CircleMaze::new(3);
    let list = maze.neighbours(Pair::new(0, 0), CellReachType::Anything);
    let expected: Vec<(CircleMazeCellDirection, Pair<usize>)> =
        (0..6).map(|n| (CircleMazeCellDirection::North(n), Pair::new(n, 1))).collect();
    assert_eq!(list, expected);
    let lonely = CircleMaze::new(1);
    assert_eq!(lonely.neighbours(Pair::new(0, 0), CellReachType::Anything), vec![]);
}

#[test]
fn ring_neighbours_wrap_and_fan_out() {
    let maze = CircleMaze::new(5);
    // Ring 2 has 6 cells, ring 3 has 12.
    assert_eq!(
        maze.neighbours(Pair::new(5, 2), CellReachType::Anything),
        vec![
            (CircleMazeCellDirection::East, Pair::new(0, 2)),
            (CircleMazeCellDirection::West, Pair::new(4, 2)),
            (CircleMazeCellDirection::South, Pair::new(5, 1)),
            (CircleMazeCellDirection::North(0), Pair::new(10, 3)),
            (CircleMazeCellDirection::North(1), Pair::new(11, 3)),
        ]
    );
    assert_eq!(
        maze.neighbours(Pair::new(0, 1), CellReachType::Anything),
        vec![
            (CircleMazeCellDirection::East, Pair::new(1, 1)),
            (CircleMazeCellDirection::West, Pair::new(5, 1)),
            (CircleMazeCellDirection::South, Pair::new(0, 0)),
            (CircleMazeCellDirection::North(0), Pair::new(0, 2)),
        ]
    );
    // The outermost ring has nothing to its north.
    assert_eq!(
        maze.neighbours(Pair::new(7, 4), CellReachType::Anything),
        vec![
            (CircleMazeCellDirection::East, Pair::new(8, 4)),
            (CircleMazeCellDirection::West, Pair::new(6, 4)),
            (CircleMazeCellDirection::South, Pair::new(7, 3)),
        ]
    );
    assert_eq!(
        maze.neighbours(Pair::new(7, 3), CellReachType::Anything)[2],
        (CircleMazeCellDirection::South, Pair::new(3, 2))
    );
}

#[test]
fn ring_steps_lead_back() {
    let maze = CircleMaze::new(10);
    let sizes = ring_sizes(&maze);
    for r in 0..10 {
        for x in 0..sizes[r] {
            let here = Pair::new(x, r);
            for (dir, there) in maze.neighbours(here, CellReachType::Anything) {
                let (to, back) = maze.step(here, dir);
                assert_eq!(to, there);
                assert_ne!(to, here);
                let (again, forth) = maze.step(to, back);
                assert_eq!(again, here);
                assert_eq!(forth, dir);
            }
        }
    }
}

#[test]
fn ring_connect_cells_opens_both_sides() {
    let mut maze = CircleMaze::new(4);
    maze.connect_cells(Pair::new(0, 0), CircleMazeCellDirection::North(2));
    assert!(maze.cell_at(Pair::new(0, 0)).is_open_at(CircleMazeCellDirection::North(2)));
    assert!(maze.cell_at(Pair::new(2, 1)).is_open_at(CircleMazeCellDirection::South));
    assert!(maze.is_open(Pair::new(0, 0), CircleMazeCellDirection::North(2)));
    assert!(!maze.is_open(Pair::new(0, 0), CircleMazeCellDirection::North(3)));
    assert!(maze.is_open(Pair::new(2, 1), CircleMazeCellDirection::South));
    assert!(!maze.is_open(Pair::new(2, 1), CircleMazeCellDirection::East));
    maze.connect_cells(Pair::new(5, 1), CircleMazeCellDirection::East);
    assert!(maze.cell_at(Pair::new(5, 1)).is_open_at(CircleMazeCellDirection::East));
    assert!(maze.cell_at(Pair::new(0, 1)).is_open_at(CircleMazeCellDirection::West));
    maze.connect_cells(Pair::new(0, 2), CircleMazeCellDirection::West);
    assert!(maze.cell_at(Pair::new(5, 2)).is_open_at(CircleMazeCellDirection::East));
    maze.connect_cells(Pair::new(9, 3), CircleMazeCellDirection::South);
    assert!(maze.cell_at(Pair::new(9, 3)).is_open_at(CircleMazeCellDirection::South));
    assert!(maze.cell_at(Pair::new(4, 2)).is_open_at(CircleMazeCellDirection::North(1)));
    assert!(!maze.cell_at(Pair::new(4, 2)).is_open_at(CircleMazeCellDirection::North(0)));
    let sizes = ring_sizes(&maze);
    let mut reached = vec![];
    for r in 0..4 {
        for x in 0..sizes[r] {
            if maze.cell_at(Pair::new(x, r)).reachable() {
                reached.push((x, r));
            }
        }
    }
    assert_eq!(
        reached,
        vec![(0, 0), (0, 1), (2, 1), (5, 1), (0, 2), (4, 2), (5, 2), (9, 3)]
    );
}

#[test]
fn ring_neighbours_by_reach() {
    let mut maze = CircleMaze::new(3);
    maze.connect_cells(Pair::new(0, 0), CircleMazeCellDirection::North(1));
    let here = Pair::new(2, 1);
    assert_eq!(
        maze.neighbours(here, CellReachType::ReachableOnly),
        vec![
            (CircleMazeCellDirection::West, Pair::new(1, 1)),
            (CircleMazeCellDirection::South, Pair::new(0, 0)),
        ]
    );
    assert_eq!(
        maze.neighbours(here, CellReachType::UnreachableOnly),
        vec![
            (CircleMazeCellDirection::East, Pair::new(3, 1)),
            (CircleMazeCellDirection::North(0), Pair::new(2, 2)),
        ]
    );
}

#[test]
fn ring_cell_at_mut_changes_one_cell() {
    let mut maze = CircleMaze::new(3);
    maze.cell_at_mut(Pair::new(3, 2)).open(CircleMazeCellDirection::West);
    assert!(maze.cell_at(Pair::new(3, 2)).is_open_at(CircleMazeCellDirection::West));
    assert!(maze.cell_at(Pair::new(3, 2)).reachable());
    assert!(!maze.cell_at(Pair::new(2, 2)).reachable());
    assert!(!maze.cell_at(Pair::new(3, 1)).reachable());
}

fn ring_passages(maze: &CircleMaze) -> usize {
    let mut count = 0;
    for r in 0..maze.height {
        for x in 0..maze.cells[r].len() {
            let here = Pair::new(x, r);
            for (dir, _) in maze.neighbours(here, CellReachType::Anything) {
                let counted = match dir {
                    CircleMazeCellDirection::East | CircleMazeCellDirection::North(_) => true,
                    _ => false,
                };
                if counted && maze.cell_at(here).is_open_at(dir) {
                    count += 1;
                }
            }
        }
    }
    count
}

fn ring_walls_match(maze: &CircleMaze) -> bool {
    for r in 0..maze.height {
        for x in 0..maze.cells[r].len() {
            let here = Pair::new(x, r);
            for (dir, there) in maze.neighbours(here, CellReachType::Anything) {
                let (_, back) = maze.step(here, dir);
                if maze.cell_at(here).is_open_at(dir) != maze.cell_at(there).is_open_at(back) {
                    return false;
                }
            }
        }
    }
    true
}

#[test]
fn ring_cells_are_listed_ring_by_ring() {
    let maze = CircleMaze::new(3);
    let cells = ring_cells(&maze);
    let mut expected = vec![Pair::new(0, 0)];
    for x in 0..6 {
        expected.push(Pair::new(x, 1));
    }
    for x in 0..6 {
        expected.push(Pair::new(x, 2));
    }
    assert_eq!(cells, expected);
    assert!(maze.cells_within(13));
    assert!(!maze.cells_within(12));
    assert!(CircleMaze::new(0).cells_within(0));
}

#[test]
fn ring_growing_tree_gives_spanning_trees() {
    for seed in 0..20u64 {
        for height in [1usize, 2, 3, 5, 9] {
            for start in [Pair::new(0, 0), Pair::new(0, height - 1)] {
                let mut rng = StdRng::seed_from_u64(seed);
                let mut maze = CircleMaze::new(height);
                MazeBuilder::random_circle_maze_creation(&mut maze, start, &mut rng);
                let cells: usize = maze.cells.iter().map(|ring| ring.len()).sum();
                assert!(ring_walls_match(&maze));
                assert_eq!(ring_passages(&maze), cells - 1);
                let (_, map) = Solver::build_distance_map_for_circle_maze(&maze, start);
                assert_eq!(map.len(), height);
                for r in 0..height {
                    assert_eq!(map[r].len(), maze.cells[r].len());
                    assert!(map[r].iter().all(|d| *d != -1));
                }
            }
        }
    }
}

#[test]
fn ring_distances_in_a_hand_made_maze() {
    let mut maze = CircleMaze::new(3);
    maze.connect_cells(Pair::new(0, 0), CircleMazeCellDirection::North(0));
    maze.connect_cells(Pair::new(0, 1), CircleMazeCellDirection::East);
    maze.connect_cells(Pair::new(1, 1), CircleMazeCellDirection::North(0));
    maze.connect_cells(Pair::new(0, 1), CircleMazeCellDirection::West);
    let (max_distance, map) = Solver::build_distance_map_for_circle_maze(&maze, Pair::new(0, 0));
    assert_eq!(
        map,
        vec![vec![0], vec![1, 2, -1, -1, -1, 2], vec![-1, 3, -1, -1, -1, -1]]
    );
    assert_eq!(max_distance, 3);
    let path = Solver::dijkstra_path_finding_solver_for_circle_maze(
        &maze,
        Pair::new(5, 1),
        Pair::new(1, 2),
    );
    assert_eq!(
        path,
        vec![Pair::new(5, 1), Pair::new(0, 1), Pair::new(1, 1), Pair::new(1, 2)]
    );
    let path = Solver::dijkstra_path_finding_solver_for_circle_maze(
        &maze,
        Pair::new(1, 2),
        Pair::new(1, 2),
    );
    assert_eq!(path, vec![Pair::new(1, 2)]);
}

#[test]
fn ring_path_from_hub_to_rim() {
    let mut rng = StdRng::seed_from_u64(7);
    let mut maze = CircleMaze::new(32);
    let start = Pair::new(0, 0);
    let finish = Pair::new(0, 31);
    MazeBuilder::random_circle_maze_creation(&mut maze, start, &mut rng);
    let path = Solver::dijkstra_path_finding_solver_for_circle_maze(&maze, start, finish);
    let (_, map) = Solver::build_distance_map_for_circle_maze(&maze, start);
    assert_eq!(path[0], start);
    assert_eq!(path[path.len() - 1], finish);
    assert_eq!(path.len() as i32 - 1, map[31][0]);
    for i in 0..path.len() - 1 {
        let linked = maze
            .neighbours(path[i], CellReachType::Anything)
            .into_iter()
            .any(|(dir, there)| there == path[i + 1] && maze.cell_at(path[i]).is_open_at(dir));
        assert!(linked);
    }
}

#[test]
fn ring_growing_tree_step_works_on_the_top_of_the_stack() {
    let mut maze = CircleMaze::new(4);
    let mut unreached = ring_cells(&maze);
    let hub = Pair::new(0, 0);
    unreached.retain(|c| *c != hub);
    let mut stack: VecDeque<Pair<usize>> = VecDeque::new();
    stack.push_back(hub);
    let order = vec![
        (CircleMazeCellDirection::North(4), Pair::new(4, 1)),
        (CircleMazeCellDirection::North(1), Pair::new(1, 1)),
        (CircleMazeCellDirection::North(0), Pair::new(0, 1)),
    ];
    MazeBuilder::growing_tree_circle_step(&mut maze, &mut unreached, &mut stack, &order, 2);
    assert_eq!(stack, VecDeque::from(vec![Pair::new(4, 1), Pair::new(1, 1)]));
    assert!(maze.is_open(hub, CircleMazeCellDirection::North(4)));
    assert!(maze.is_open(hub, CircleMazeCellDirection::North(1)));
    assert!(!maze.is_open(hub, CircleMazeCellDirection::North(0)));
    assert!(maze.is_open(Pair::new(4, 1), CircleMazeCellDirection::South));
    assert!(maze.is_open(Pair::new(1, 1), CircleMazeCellDirection::South));
    assert_eq!(ring_passages(&maze), 2);
    assert_eq!(unreached.len(), 22);
    assert!(!unreached.contains(&Pair::new(4, 1)));
    assert!(!unreached.contains(&Pair::new(1, 1)));
    assert!(unreached.contains(&Pair::new(0, 1)));
    // The cell on top is (1, 1); it is joined to its first neighbour in the order.
    let order = vec![
        (CircleMazeCellDirection::East, Pair::new(2, 1)),
        (CircleMazeCellDirection::North(0), Pair::new(1, 2)),
    ];
    MazeBuilder::growing_tree_circle_step(&mut maze, &mut unreached, &mut stack, &order, 1);
    assert_eq!(stack, VecDeque::from(vec![Pair::new(4, 1), Pair::new(2, 1)]));
    assert!(maze.is_open(Pair::new(1, 1), CircleMazeCellDirection::East));
    assert!(maze.is_open(Pair::new(2, 1), CircleMazeCellDirection::West));
    assert_eq!(ring_passages(&maze), 3);
}
