use mazey::ascii_drawer::AsciiDrawer;
use mazey::maze::Maze;
use mazey::pair::Pair;
use mazey::util::{EAST, SOUTH};

fn lines(maze: &Maze, solution: &Vec<Pair<usize>>) -> Vec<String> {
    AsciiDrawer::render(maze, solution)
        .into_iter()
        .map(|row| row.into_iter().collect())
        .collect()
}

#[test]
fn picture_of_a_walled_grid() {
    let maze = Maze::new_full(2, 1);
    assert_eq!(lines(&maze, &vec![]), vec!["█████", "█ █ █", "█████"]);
}

#[test]
fn picture_of_a_small_maze_with_its_solution() {
    let mut maze = Maze::new_full(3, 2);
    maze.connect_cells(0, 0, EAST);
    maze.connect_cells(1, 0, SOUTH);
    maze.connect_cells(1, 1, EAST);
    maze.connect_cells(0, 0, SOUTH);
    let solution = vec![Pair::new(0, 0), Pair::new(1, 0), Pair::new(1, 1), Pair::new(2, 1)];
    assert_eq!(
        lines(&maze, &solution),
        vec![
            "███████",
            "█x x█ █",
            "█ █ ███",
            "█ █x x█",
            "███████",
        ]
    );
}

#[test]
fn picture_of_an_open_grid() {
    let maze = Maze::new_empty(2, 2);
    assert_eq!(
        lines(&maze, &vec![Pair::new(1, 1)]),
        vec!["█ █ █", "█    ", "█ █ █", "█  x ", "█████"]
    );
}

#[test]
fn picture_of_no_cells() {
    let maze = Maze::new_full(0, 0);
    assert_eq!(lines(&maze, &vec![]), vec!["█"]);
    let maze = Maze::new_full(2, 0);
    assert_eq!(lines(&maze, &vec![]), vec!["█████"]);
}
