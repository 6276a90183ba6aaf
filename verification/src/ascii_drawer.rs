use crate::maze::Maze;
use crate::maze_builder::contains_cell;
use crate::pair::Pair;
use crate::util::{Coord, EAST, NORTH};
use vstd::prelude::*;

verus! {

/// Draws a rectangular maze with block characters, two columns and two rows of
/// text for each cell.
pub struct AsciiDrawer;

/// The block that stands for a wall.
pub const WALL: char = '█';

/// The character at `col` in the text row `row` of the picture of a maze. Even rows
/// show the north walls, odd rows the cells, with an `x` on the cells of the
/// solution, and their east walls; the last row closes the picture. Every row
/// begins with a block: the west wall of the grid.
pub open spec fn ascii_char(maze: &Maze, solution: Seq<Coord>, row: int, col: int) -> char {
    let cell = Pair { x: ((col - 1) / 2) as usize, y: (row / 2) as usize };
    if col == 0 || row == 2 * maze.height {
        WALL
    } else if row % 2 == 0 {
        if col % 2 == 0 || !maze.wall_open(cell, NORTH) {
            WALL
        } else {
            ' '
        }
    } else if col % 2 == 1 {
        if solution.contains(cell) {
            'x'
        } else {
            ' '
        }
    } else if maze.wall_open(cell, EAST) {
        ' '
    } else {
        WALL
    }
}

/// The text row holds the first `len` characters of the row `row` of the picture.
pub open spec fn ascii_row(
    maze: &Maze,
    solution: Seq<Coord>,
    row: int,
    text: Seq<char>,
    len: int,
) -> bool {
    &&& text.len() == len
    &&& forall|col: int| 0 <= col < len ==> #[trigger] text[col] == ascii_char(maze, solution, row, col)
}

impl AsciiDrawer {
    /// The picture of the maze as rows of text: `2 * height + 1` rows of
    /// `2 * width + 1` characters each.
    pub fn render(maze: &Maze, solution: &Vec<Coord>) -> (rows: Vec<Vec<char>>)
        requires
            maze.shaped(),
            2 * maze.width + 1 <= usize::MAX,
            2 * maze.height + 1 <= usize::MAX,
        ensures
            rows@.len() == 2 * maze.height + 1,
            forall|row: int|
                0 <= row < rows@.len() ==> ascii_row(
                    maze,
                    solution@,
                    row,
                    (#[trigger] rows@[row])@,
                    2 * maze.width + 1,
                ),
    {
        let mut rows: Vec<Vec<char>> = Vec::new();
        let mut y: usize = 0;
        while y < maze.height
            invariant
                maze.shaped(),
                2 * maze.width + 1 <= usize::MAX,
                2 * maze.height + 1 <= usize::MAX,
                y <= maze.height,
                rows@.len() == 2 * y,
                forall|row: int|
                    0 <= row < rows@.len() ==> ascii_row(
                        maze,
                        solution@,
                        row,
                        (#[trigger] rows@[row])@,
                        2 * maze.width + 1,
                    ),
            decreases maze.height - y,
        {
            let mut walls: Vec<char> = Vec::new();
            let mut inside: Vec<char> = Vec::new();
            walls.push(WALL);
            inside.push(WALL);
            let mut x: usize = 0;
            while x < maze.width
                invariant
                    maze.shaped(),
                    2 * maze.width + 1 <= usize::MAX,
                    y < maze.height,
                    x <= maze.width,
                    ascii_row(maze, solution@, 2 * y, walls@, 2 * x + 1),
                    ascii_row(maze, solution@, 2 * y + 1, inside@, 2 * x + 1),
                decreases maze.width - x,
            {
                let here = Pair::new(x, y);
                if maze.is_open(here, NORTH) {
                    walls.push(' ');
                } else {
                    walls.push(WALL);
                }
                walls.push(WALL);
                if contains_cell(solution, here) {
                    inside.push('x');
                } else {
                    inside.push(' ');
                }
                if maze.is_open(here, EAST) {
                    inside.push(' ');
                } else {
                    inside.push(WALL);
                }
                x = x + 1;
            }
            rows.push(walls);
            rows.push(inside);
            y = y + 1;
        }
        let mut last: Vec<char> = Vec::new();
        last.push(WALL);
        let mut x: usize = 0;
        while x < maze.width
            invariant
                2 * maze.width + 1 <= usize::MAX,
                x <= maze.width,
                ascii_row(maze, solution@, 2 * maze.height, last@, 2 * x + 1),
            decreases maze.width - x,
        {
            last.push(WALL);
            last.push(WALL);
            x = x + 1;
        }
        rows.push(last);
        rows
    }
}

} // verus!
