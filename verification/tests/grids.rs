use mazey::cell::Cell;
use mazey::maze::Maze;
use mazey::pair::Pair;
use mazey::util::{CellReachType, Coord, EAST, NORTH, SOUTH, WEST};

fn count_passages(maze: &Maze) -> usize {
    let mut count = 0;
    for y in 0..maze.height {
        for x in 0..maze.width {
            for dir in [EAST, SOUTH] {
                let here = Pair::new(x, y);
                if maze.neighbour(here, dir).is_some() && maze.is_open(here, dir) {
                    count += 1;
                }
            }
        }
    }
    count
}

#[test]
fn pair_new_keeps_components() {
    let p: Coord = Pair::new(3, 7);
    assert_eq!(p.x, 3);
    assert_eq!(p.y, 7);
    assert_eq!(p, Pair { x: 3, y: 7 });
    assert_ne!(p, Pair { x: 7, y: 3 });
}

#[test]
fn pair_index_is_row_major() {
    assert_eq!(Pair::<usize>::new(0, 0).index(5), 0);
    assert_eq!(Pair::<usize>::new(4, 0).index(5), 4);
    assert_eq!(Pair::<usize>::new(0, 1).index(5), 5);
    assert_eq!(Pair::<usize>::new(2, 3).index(5), 17);
    assert_eq!(Pair::<i32>::new(2, 3).index(5), 17);
    assert_eq!(Pair::<i32>::new(0, 0).index(1), 0);
}

#[test]
fn pair_to_usize_keeps_components() {
    let p = Pair::<i32>::new(4, 9).to_usize();
    assert_eq!(p, Pair::<usize>::new(4, 9));
}

#[test]
fn cell_new_full_has_all_walls() {
    let cell = Cell::new_full();
    assert_eq!(cell.paths, [true; 4]);
    assert!(!cell.reachable());
    for dir in 0..4 {
        assert!(!cell.is_open_at(dir));
    }
}

#[test]
fn cell_new_empty_has_no_walls() {
    let cell = Cell::new_empty();
    assert_eq!(cell.paths, [false; 4]);
    assert!(cell.reachable());
}

#[test]
fn cell_open_makes_it_reachable() {
    for dir in 0..4 {
        let mut cell = Cell::new_full();
        cell.open(dir);
        assert!(cell.reachable());
        for other in 0..4 {
            assert_eq!(cell.is_open_at(other), other == dir);
        }
    }
}

#[test]
fn cell_mark_reached_leaves_walls() {
    let mut cell = Cell::new_full();
    cell.mark_reached();
    assert!(cell.reachable());
    assert_eq!(cell.paths, [true; 4]);
}

#[test]
fn reach_type_filters() {
    assert!(CellReachType::Anything.accepts(true));
    assert!(CellReachType::Anything.accepts(false));
    assert!(CellReachType::ReachableOnly.accepts(true));
    assert!(!CellReachType::ReachableOnly.accepts(false));
    assert!(!CellReachType::UnreachableOnly.accepts(true));
    assert!(CellReachType::UnreachableOnly.accepts(false));
}

#[test]
fn opposite_sides() {
    assert_eq!(mazey::util::opposite_dir(NORTH), SOUTH);
    assert_eq!(mazey::util::opposite_dir(EAST), WEST);
    assert_eq!(mazey::util::opposite_dir(SOUTH), NORTH);
    assert_eq!(mazey::util::opposite_dir(WEST), EAST);
}

#[test]
fn maze_new_full_is_walled() {
    let maze = Maze::new_full(4, 3);
    assert_eq!(maze.width, 4);
    assert_eq!(maze.height, 3);
    assert_eq!(maze.cells.len(), 12);
    for y in 0..3 {
        for x in 0..4 {
            for dir in 0..4 {
                assert!(!maze.is_open(Pair::new(x, y), dir));
            }
            assert!(!maze.cell_at(Pair::new(x, y)).reachable());
        }
    }
    assert_eq!(count_passages(&maze), 0);
}

#[test]
fn maze_new_empty_is_open() {
    let maze = Maze::new_empty(3, 2);
    assert_eq!(maze.cells.len(), 6);
    for y in 0..2 {
        for x in 0..3 {
            for dir in 0..4 {
                assert!(maze.is_open(Pair::new(x, y), dir));
            }
        }
    }
    // 2 * 2 horizontal and 3 vertical passages.
    assert_eq!(count_passages(&maze), 7);
}

#[test]
fn maze_of_no_cells() {
    let maze = Maze::new_full(0, 5);
    assert_eq!(maze.cells.len(), 0);
    let maze = Maze::new_full(5, 0);
    assert_eq!(maze.cells.len(), 0);
}

#[test]
fn maze_neighbour_table() {
    let maze = Maze::new_full(3, 3);
    let c = Pair::new(1, 1);
    assert_eq!(maze.neighbour(c, NORTH), Some(Pair::new(1, 0)));
    assert_eq!(maze.neighbour(c, EAST), Some(Pair::new(2, 1)));
    assert_eq!(maze.neighbour(c, SOUTH), Some(Pair::new(1, 2)));
    assert_eq!(maze.neighbour(c, WEST), Some(Pair::new(0, 1)));
    let corner = Pair::new(0, 0);
    assert_eq!(maze.neighbour(corner, NORTH), None);
    assert_eq!(maze.neighbour(corner, WEST), None);
    assert_eq!(maze.neighbour(corner, EAST), Some(Pair::new(1, 0)));
    assert_eq!(maze.neighbour(corner, SOUTH), Some(Pair::new(0, 1)));
    let far = Pair::new(2, 2);
    assert_eq!(maze.neighbour(far, EAST), None);
    assert_eq!(maze.neighbour(far, SOUTH), None);
}

#[test]
fn maze_connect_cells_opens_both_sides() {
    let mut maze = Maze::new_full(3, 3);
    maze.connect_cells(1, 1, EAST);
    assert!(maze.is_open(Pair::new(1, 1), EAST));
    assert!(maze.is_open(Pair::new(2, 1), WEST));
    assert_eq!(count_passages(&maze), 1);
    for y in 0..3 {
        for x in 0..3 {
            for dir in 0..4 {
                let expected = (x == 1 && y == 1 && dir == EAST) || (x == 2 && y == 1 && dir == WEST);
                assert_eq!(maze.is_open(Pair::new(x, y), dir), expected);
            }
        }
    }
    maze.connect_cells(1, 1, NORTH);
    assert!(maze.is_open(Pair::new(1, 0), SOUTH));
    maze.connect_cells(1, 1, SOUTH);
    assert!(maze.is_open(Pair::new(1, 2), NORTH));
    maze.connect_cells(1, 1, WEST);
    assert!(maze.is_open(Pair::new(0, 1), EAST));
    assert_eq!(count_passages(&maze), 4);
}

#[test]
fn maze_connect_cells_on_the_rim_opens_one_side() {
    let mut maze = Maze::new_full(2, 2);
    maze.connect_cells(0, 0, NORTH);
    assert!(maze.is_open(Pair::new(0, 0), NORTH));
    assert_eq!(count_passages(&maze), 0);
    for (x, y) in [(1, 0), (0, 1), (1, 1)] {
        assert!(!maze.cell_at(Pair::new(x, y)).reachable());
    }
}

#[test]
fn maze_mark_reached_marks_one_cell() {
    let mut maze = Maze::new_full(2, 2);
    maze.mark_reached(Pair::new(1, 0));
    assert!(maze.cell_at(Pair::new(1, 0)).reachable());
    assert!(!maze.cell_at(Pair::new(0, 0)).reachable());
    assert!(!maze.cell_at(Pair::new(0, 1)).reachable());
    assert!(!maze.cell_at(Pair::new(1, 1)).reachable());
    assert_eq!(count_passages(&maze), 0);
}

#[test]
fn maze_neighbours_in_order_and_filtered() {
    let mut maze = Maze::new_full(3, 3);
    let c = Pair::new(1, 1);
    let all = maze.neighbours(c, CellReachType::Anything);
    assert_eq!(
        all,
        vec![
            (NORTH, Pair::new(1, 0)),
            (EAST, Pair::new(2, 1)),
            (SOUTH, Pair::new(1, 2)),
            (WEST, Pair::new(0, 1)),
        ]
    );
    assert_eq!(maze.neighbours(c, CellReachType::ReachableOnly), vec![]);
    assert_eq!(maze.neighbours(c, CellReachType::UnreachableOnly), all);
    maze.connect_cells(2, 1, NORTH);
    assert_eq!(
        maze.neighbours(c, CellReachType::ReachableOnly),
        vec![(EAST, Pair::new(2, 1))]
    );
    assert_eq!(
        maze.neighbours(c, CellReachType::UnreachableOnly),
        vec![(NORTH, Pair::new(1, 0)), (SOUTH, Pair::new(1, 2)), (WEST, Pair::new(0, 1))]
    );
    let corner = maze.neighbours(Pair::new(0, 0), CellReachType::Anything);
    assert_eq!(corner, vec![(EAST, Pair::new(1, 0)), (SOUTH, Pair::new(0, 1))]);
    assert_eq!(maze.count_neighbours(Pair::new(0, 0)), 2);
    assert_eq!(maze.count_neighbours(Pair::new(1, 0)), 3);
    assert_eq!(maze.count_neighbours(c), 4);
    let single = Maze::new_full(1, 1);
    assert_eq!(single.neighbours(Pair::new(0, 0), CellReachType::Anything), vec![]);
    assert_eq!(single.count_neighbours(Pair::new(0, 0)), 0);
}
