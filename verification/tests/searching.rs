use mazey::maze::Maze;
use mazey::pair::Pair;
use mazey::solver::{reversed, Solver};
use mazey::util::{Coord, EAST, NORTH, SOUTH};

/// ```text
/// +--+--+--+
/// |  0  1  2 |
/// +  +--+  +
/// |  1 |  4  3 |
/// +  +--+--+
/// |  2  3  4 |
/// +--+--+--+
/// ```
fn sample() -> Maze {
    let mut maze = Maze::new_full(3, 3);
    maze.connect_cells(0, 0, EAST);
    maze.connect_cells(1, 0, EAST);
    maze.connect_cells(0, 0, SOUTH);
    maze.connect_cells(2, 0, SOUTH);
    maze.connect_cells(1, 1, EAST);
    maze.connect_cells(0, 1, SOUTH);
    maze.connect_cells(0, 2, EAST);
    maze.connect_cells(1, 2, EAST);
    maze
}

fn linked(maze: &Maze, a: Coord, b: Coord) -> bool {
    (0..4).any(|dir| maze.neighbour(a, dir) == Some(b) && maze.is_open(a, dir))
}

#[test]
fn distance_map_of_sample() {
    let maze = sample();
    let (max_distance, map) = Solver::build_distance_map(&maze, Pair::new(0, 0));
    assert_eq!(map, vec![vec![0, 1, 2], vec![1, 4, 3], vec![2, 3, 4]]);
    assert_eq!(max_distance, 4);
}

#[test]
fn distance_map_from_another_start() {
    let maze = sample();
    let (max_distance, map) = Solver::build_distance_map(&maze, Pair::new(1, 1));
    assert_eq!(map, vec![vec![4, 3, 2], vec![5, 0, 1], vec![6, 7, 8]]);
    assert_eq!(max_distance, 8);
}

#[test]
fn distance_map_leaves_cut_off_cells_unvisited() {
    let mut maze = Maze::new_full(3, 2);
    maze.connect_cells(0, 0, EAST);
    maze.connect_cells(1, 1, EAST);
    let (max_distance, map) = Solver::build_distance_map(&maze, Pair::new(0, 0));
    assert_eq!(map, vec![vec![0, 1, -1], vec![-1, -1, -1]]);
    assert_eq!(max_distance, 1);
    let (max_distance, map) = Solver::build_distance_map(&maze, Pair::new(2, 1));
    assert_eq!(map, vec![vec![-1, -1, -1], vec![-1, 1, 0]]);
    assert_eq!(max_distance, 1);
}

#[test]
fn distance_map_of_single_cell() {
    let maze = Maze::new_full(1, 1);
    let (max_distance, map) = Solver::build_distance_map(&maze, Pair::new(0, 0));
    assert_eq!(map, vec![vec![0]]);
    assert_eq!(max_distance, 0);
}

#[test]
fn distance_map_of_open_grid_is_manhattan() {
    let maze = Maze::new_empty(4, 3);
    let (max_distance, map) = Solver::build_distance_map(&maze, Pair::new(1, 1));
    for y in 0..3usize {
        for x in 0..4usize {
            let expected = (x as i32 - 1).abs() + (y as i32 - 1).abs();
            assert_eq!(map[y][x], expected);
        }
    }
    assert_eq!(max_distance, 3);
}

#[test]
fn neighbours_differ_by_at_most_one_step() {
    let maze = sample();
    let start = Pair::new(0, 0);
    let (_, map) = Solver::build_distance_map(&maze, start);
    for y in 0..3 {
        for x in 0..3 {
            let here = Pair::new(x, y);
            let mut has_way_back = false;
            for dir in 0..4 {
                if let Some(there) = maze.neighbour(here, dir) {
                    if maze.is_open(here, dir) {
                        assert!(map[there.y][there.x] <= map[y][x] + 1);
                        assert!(map[there.y][there.x] >= 0);
                        if map[there.y][there.x] == map[y][x] - 1 {
                            has_way_back = true;
                        }
                    }
                }
            }
            assert_eq!(has_way_back, here != start);
            assert_eq!(map[y][x] == 0, here == start);
        }
    }
}

#[test]
fn path_through_sample() {
    let maze = sample();
    let path = Solver::dijkstra_path_finding_solver(&maze, Pair::new(0, 0), Pair::new(1, 1));
    assert_eq!(
        path,
        vec![
            Pair::new(0, 0),
            Pair::new(1, 0),
            Pair::new(2, 0),
            Pair::new(2, 1),
            Pair::new(1, 1),
        ]
    );
    let path = Solver::dijkstra_path_finding_solver(&maze, Pair::new(2, 2), Pair::new(0, 0));
    assert_eq!(
        path,
        vec![
            Pair::new(2, 2),
            Pair::new(1, 2),
            Pair::new(0, 2),
            Pair::new(0, 1),
            Pair::new(0, 0),
        ]
    );
}

#[test]
fn path_to_the_start_itself() {
    let maze = sample();
    let path = Solver::dijkstra_path_finding_solver(&maze, Pair::new(2, 1), Pair::new(2, 1));
    assert_eq!(path, vec![Pair::new(2, 1)]);
    let single = Maze::new_full(1, 1);
    let path = Solver::dijkstra_path_finding_solver(&single, Pair::new(0, 0), Pair::new(0, 0));
    assert_eq!(path, vec![Pair::new(0, 0)]);
}

#[test]
fn path_is_shortest_where_there_are_cycles() {
    let maze = Maze::new_empty(5, 5);
    let start = Pair::new(0, 4);
    let finish = Pair::new(3, 1);
    let path = Solver::dijkstra_path_finding_solver(&maze, start, finish);
    let (_, map) = Solver::build_distance_map(&maze, start);
    assert_eq!(path.len(), 7);
    assert_eq!(path.len() as i32 - 1, map[1][3]);
    assert_eq!(path[0], start);
    assert_eq!(path[path.len() - 1], finish);
    for i in 0..path.len() - 1 {
        assert!(linked(&maze, path[i], path[i + 1]));
    }
}

#[test]
fn path_follows_open_walls() {
    let mut maze = Maze::new_full(2, 2);
    maze.connect_cells(0, 0, SOUTH);
    maze.connect_cells(0, 1, EAST);
    maze.connect_cells(1, 1, NORTH);
    let path = Solver::dijkstra_path_finding_solver(&maze, Pair::new(0, 0), Pair::new(1, 0));
    assert_eq!(
        path,
        vec![Pair::new(0, 0), Pair::new(0, 1), Pair::new(1, 1), Pair::new(1, 0)]
    );
}

#[test]
fn reversed_turns_the_list_round() {
    assert_eq!(reversed(&vec![]), vec![]);
    assert_eq!(reversed(&vec![Pair::new(1, 2)]), vec![Pair::new(1, 2)]);
    assert_eq!(
        reversed(&vec![Pair::new(1, 2), Pair::new(3, 4), Pair::new(5, 6)]),
        vec![Pair::new(5, 6), Pair::new(3, 4), Pair::new(1, 2)]
    );
}

#[test]
fn path_is_the_first_way_back_where_several_are_shortest() {
    // In a grid without walls the walk back prefers north, then east, south, west.
    let maze = Maze::new_empty(3, 3);
    let expected = vec![
        Pair::new(0, 0),
        Pair::new(1, 0),
        Pair::new(2, 0),
        Pair::new(2, 1),
        Pair::new(2, 2),
    ];
    assert_eq!(
        Solver::dijkstra_path_finding_solver(&maze, Pair::new(0, 0), Pair::new(2, 2)),
        expected
    );
    assert_eq!(maze.dijkstra_path_finding(Pair::new(0, 0), Pair::new(2, 2)), expected);
    let line = Maze::new_empty(3, 1);
    assert_eq!(
        line.dijkstra_path_finding(Pair::new(0, 0), Pair::new(2, 0)),
        vec![Pair::new(0, 0), Pair::new(1, 0), Pair::new(2, 0)]
    );
    // From the far corner the way back leads east first.
    assert_eq!(
        Solver::dijkstra_path_finding_solver(&maze, Pair::new(2, 2), Pair::new(0, 0)),
        vec![
            Pair::new(2, 2),
            Pair::new(2, 1),
            Pair::new(2, 0),
            Pair::new(1, 0),
            Pair::new(0, 0),
        ]
    );
}
