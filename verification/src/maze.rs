use crate::binary_tree::is_binary_tree;
use crate::cell::Cell;
use crate::maze_builder::MazeBuilder;
use crate::pair::Pair;
use crate::sidewinder::is_sidewinder;
use crate::solver::{solution_walk, Solver};
use crate::util::{opposite, opposite_dir, CellReachType, Coord, EAST, NORTH, SOUTH, WEST};
use rand::rngs::StdRng;
use vstd::prelude::*;

verus! {

/// A rectangular grid of cells, stored row by row.
#[derive(Debug)]
pub struct Maze {
    pub width: usize,
    pub height: usize,
    pub cells: Vec<Cell>,
}

/// The cell next to `c` on the side `dir`. It has a meaning only where
/// [`Maze::has_neighbour`] holds.
pub open spec fn neighbour_of(c: Coord, dir: usize) -> Coord {
    if dir == NORTH {
        Pair { x: c.x, y: (c.y - 1) as usize }
    } else if dir == EAST {
        Pair { x: (c.x + 1) as usize, y: c.y }
    } else if dir == SOUTH {
        Pair { x: c.x, y: (c.y + 1) as usize }
    } else {
        Pair { x: (c.x - 1) as usize, y: c.y }
    }
}

/// Row-major positions stay inside the array.
pub proof fn lemma_index_in_range(width: int, height: int, x: int, y: int)
    requires
        0 <= x < width,
        0 <= y < height,
    ensures
        0 <= y * width + x < width * height,
{
    assert(y * width >= 0) by (nonlinear_arith)
        requires y >= 0, width >= 0;
    assert((y + 1) * width <= height * width) by (nonlinear_arith)
        requires y + 1 <= height, width >= 0;
    assert((y + 1) * width == y * width + width) by (nonlinear_arith);
    assert(height * width == width * height) by (nonlinear_arith);
}

/// Two cells of one grid share a row-major position only if they are the same cell.
pub proof fn lemma_index_injective(width: int, x1: int, y1: int, x2: int, y2: int)
    requires
        0 <= x1 < width,
        0 <= x2 < width,
        0 <= y1,
        0 <= y2,
        y1 * width + x1 == y2 * width + x2,
    ensures
        x1 == x2,
        y1 == y2,
{
    if y1 < y2 {
        assert((y1 + 1) * width <= y2 * width) by (nonlinear_arith)
            requires y1 + 1 <= y2, width >= 0;
        assert((y1 + 1) * width == y1 * width + width) by (nonlinear_arith);
    } else if y2 < y1 {
        assert((y2 + 1) * width <= y1 * width) by (nonlinear_arith)
            requires y2 + 1 <= y1, width >= 0;
        assert((y2 + 1) * width == y2 * width + width) by (nonlinear_arith);
    }
}

impl Maze {
    /// Whether `c` names a cell of this grid.
    pub open spec fn in_bounds(&self, c: Coord) -> bool {
        c.x < self.width && c.y < self.height
    }

    /// Position of `c` in `cells`.
    pub open spec fn cell_index(&self, c: Coord) -> int {
        c.y * self.width + c.x
    }

    /// The cell at `c`.
    pub open spec fn cell(&self, c: Coord) -> Cell {
        self.cells@[self.cell_index(c)]
    }

    /// Whether the wall of `c` on the side `dir` is open.
    pub open spec fn wall_open(&self, c: Coord, dir: usize) -> bool {
        self.cell(c).open_at(dir as int)
    }

    /// Whether `c` has been marked as reached without opening a wall.
    pub open spec fn marked_at(&self, c: Coord) -> bool {
        self.cell(c).marked()
    }

    /// Whether `c` counts as reached: a wall of it is open, or it has been marked.
    pub open spec fn reached(&self, c: Coord) -> bool {
        self.cell(c).is_reachable()
    }

    /// Whether the grid has a cell next to `c` on the side `dir`.
    pub open spec fn has_neighbour(&self, c: Coord, dir: usize) -> bool {
        if dir == NORTH {
            c.y > 0
        } else if dir == EAST {
            c.x + 1 < self.width
        } else if dir == SOUTH {
            c.y + 1 < self.height
        } else if dir == WEST {
            c.x > 0
        } else {
            false
        }
    }

    /// One can step from `c` to its neighbour on the side `dir`.
    pub open spec fn passage(&self, c: Coord, dir: usize) -> bool {
        &&& self.in_bounds(c)
        &&& self.has_neighbour(c, dir)
        &&& self.wall_open(c, dir)
    }

    /// The array holds one cell for each coordinate.
    pub open spec fn shaped(&self) -> bool {
        self.cells@.len() == self.width * self.height
    }

    /// Walls between two cells of the grid are open on both sides or on neither.
    #[verifier::opaque]
    pub open spec fn walls_pair_up(&self) -> bool {
        forall|c: Coord, dir: usize|
            self.in_bounds(c) && self.has_neighbour(c, dir) ==> #[trigger] self.wall_open(c, dir)
                == self.wall_open(neighbour_of(c, dir), opposite(dir))
    }

    /// Well-formedness: one cell per coordinate, and walls open in matched pairs.
    pub open spec fn wf(&self) -> bool {
        self.shaped() && self.walls_pair_up()
    }

    /// Every wall of every cell stands and no cell has been marked.
    pub open spec fn fully_walled(&self) -> bool {
        forall|c: Coord| #[trigger]
            self.in_bounds(c) ==> !self.marked_at(c) && forall|dir: usize|
                dir < 4 ==> !#[trigger] self.wall_open(c, dir)
    }

    /// No wall on the rim of the grid is open.
    pub open spec fn enclosed(&self) -> bool {
        forall|c: Coord, dir: usize|
            self.in_bounds(c) && dir < 4 && #[trigger] self.wall_open(c, dir)
                ==> self.has_neighbour(c, dir)
    }

    /// Stepping to a neighbour and back ends where it began.
    pub proof fn lemma_neighbour_back(&self, c: Coord, dir: usize)
        requires
            self.in_bounds(c),
            self.has_neighbour(c, dir),
        ensures
            self.in_bounds(neighbour_of(c, dir)),
            opposite(dir) < 4,
            opposite(opposite(dir)) == dir,
            self.has_neighbour(neighbour_of(c, dir), opposite(dir)),
            neighbour_of(neighbour_of(c, dir), opposite(dir)) == c,
            neighbour_of(c, dir) != c,
    {
    }

    /// The symmetry of walls: the wall of `c` on the side `dir` is open exactly when
    /// the neighbour's wall that faces `c` is open.
    pub proof fn lemma_wall_symmetry(&self, c: Coord, dir: usize)
        requires
            self.wf(),
            self.in_bounds(c),
            self.has_neighbour(c, dir),
        ensures
            self.wall_open(c, dir) == self.wall_open(neighbour_of(c, dir), opposite(dir)),
            self.passage(c, dir) == self.passage(neighbour_of(c, dir), opposite(dir)),
    {
        reveal(Maze::walls_pair_up);
        self.lemma_neighbour_back(c, dir);
    }

    /// A grid of cells that have all their walls (`full`) or none.
    fn filled(width: usize, height: usize, full: bool) -> (maze: Maze)
        requires
            width * height <= usize::MAX,
        ensures
            maze.width == width,
            maze.height == height,
            maze.wf(),
            forall|c: Coord| #[trigger] maze.in_bounds(c) ==> !maze.marked_at(c),
            forall|c: Coord, dir: usize|
                maze.in_bounds(c) && dir < 4 ==> #[trigger] maze.wall_open(c, dir) == !full,
    {
        let count = width * height;
        let mut cells: Vec<Cell> = Vec::new();
        while cells.len() < count
            invariant
                cells.len() <= count,
                forall|i: int|
                    0 <= i < cells.len() ==> !(#[trigger] cells@[i]).marked() && forall|dir: int|
                        0 <= dir < 4 ==> cells@[i].open_at(dir) == !full,
            decreases count - cells.len(),
        {
            let cell = if full {
                Cell::new_full()
            } else {
                Cell::new_empty()
            };
            cells.push(cell);
        }
        let maze = Maze { width, height, cells };
        proof {
            assert forall|c: Coord| #[trigger] maze.in_bounds(c) implies !maze.marked_at(c) by {
                lemma_index_in_range(width as int, height as int, c.x as int, c.y as int);
            }
            assert forall|c: Coord, dir: usize| maze.in_bounds(c) && dir < 4 implies #[trigger]
                maze.wall_open(c, dir) == !full by {
                lemma_index_in_range(width as int, height as int, c.x as int, c.y as int);
            }
            assert(maze.walls_pair_up()) by {
                reveal(Maze::walls_pair_up);
                assert forall|c: Coord, dir: usize|
                    maze.in_bounds(c) && maze.has_neighbour(c, dir) implies #[trigger]
                    maze.wall_open(c, dir) == maze.wall_open(
                        neighbour_of(c, dir),
                        opposite(dir),
                    ) by {
                    maze.lemma_neighbour_back(c, dir);
                }
            }
        }
        maze
    }

    /// A grid without any wall.
    pub fn new_empty(width: usize, height: usize) -> (maze: Maze)
        requires
            width * height <= usize::MAX,
        ensures
            maze.width == width,
            maze.height == height,
            maze.wf(),
            forall|c: Coord| #[trigger] maze.in_bounds(c) ==> !maze.marked_at(c),
            forall|c: Coord, dir: usize|
                maze.in_bounds(c) && dir < 4 ==> #[trigger] maze.wall_open(c, dir),
    {
        Maze::filled(width, height, false)
    }

    /// A grid in which every wall stands.
    pub fn new_full(width: usize, height: usize) -> (maze: Maze)
        requires
            width * height <= usize::MAX,
        ensures
            maze.width == width,
            maze.height == height,
            maze.wf(),
            maze.fully_walled(),
            maze.enclosed(),
    {
        Maze::filled(width, height, true)
    }

    /// Position of the cell at `coord` in `cells`.
    pub fn index_of(&self, coord: Coord) -> (i: usize)
        requires
            self.shaped(),
            self.in_bounds(coord),
        ensures
            i == self.cell_index(coord),
            i < self.cells@.len(),
    {
        proof {
            lemma_index_in_range(
                self.width as int,
                self.height as int,
                coord.x as int,
                coord.y as int,
            );
            assert(self.cells@.len() == self.cells.len());
        }
        coord.index(self.width)
    }

    /// The cell at `coord`.
    pub fn cell_at(&self, coord: Coord) -> (cell: &Cell)
        requires
            self.shaped(),
            self.in_bounds(coord),
        ensures
            *cell == self.cell(coord),
    {
        let i = self.index_of(coord);
        &self.cells[i]
    }

    /// Whether the wall of the cell at `coord` on the side `dir` is open.
    pub fn is_open(&self, coord: Coord, dir: usize) -> (r: bool)
        requires
            self.shaped(),
            self.in_bounds(coord),
            dir < 4,
        ensures
            r == self.wall_open(coord, dir),
    {
        self.cell_at(coord).is_open_at(dir)
    }

    /// The cell next to `coord` on the side `dir`, if the grid has one.
    pub fn neighbour(&self, coord: Coord, dir: usize) -> (r: Option<Coord>)
        requires
            self.in_bounds(coord),
            dir < 4,
        ensures
            r.is_some() == self.has_neighbour(coord, dir),
            r.is_some() ==> r.unwrap() == neighbour_of(coord, dir) && self.in_bounds(r.unwrap()),
    {
        if dir == NORTH {
            if coord.y > 0 {
                Some(Pair::new(coord.x, coord.y - 1))
            } else {
                None
            }
        } else if dir == EAST {
            if coord.x < self.width - 1 {
                Some(Pair::new(coord.x + 1, coord.y))
            } else {
                None
            }
        } else if dir == SOUTH {
            if coord.y < self.height - 1 {
                Some(Pair::new(coord.x, coord.y + 1))
            } else {
                None
            }
        } else {
            if coord.x > 0 {
                Some(Pair::new(coord.x - 1, coord.y))
            } else {
                None
            }
        }
    }

    /// Whether an adjacency query at `coord` with the filter `reach_type` hands out the
    /// side `dir`: the grid has a cell there, and the filter admits it.
    pub open spec fn offers(&self, coord: Coord, reach_type: CellReachType, dir: usize) -> bool {
        &&& dir < 4
        &&& self.has_neighbour(coord, dir)
        &&& reach_type.admits(self.reached(neighbour_of(coord, dir)))
    }

    /// The neighbours of the cell at `coord` that the filter admits, each with the side
    /// on which it lies, in the order north, east, south, west.
    pub fn neighbours(&self, coord: Coord, reach_type: CellReachType) -> (list: Vec<
        (usize, Coord),
    >)
        requires
            self.shaped(),
            self.in_bounds(coord),
        ensures
            list@.len() <= 4,
            forall|i: int|
                0 <= i < list@.len() ==> self.offers(coord, reach_type, (#[trigger] list@[i]).0)
                    && list@[i].1 == neighbour_of(coord, list@[i].0),
            forall|i: int, j: int|
                0 <= i < j < list@.len() ==> (#[trigger] list@[i]).0 < (#[trigger] list@[j]).0,
            forall|dir: usize|
                self.offers(coord, reach_type, dir) ==> exists|i: int|
                    0 <= i < list@.len() && (#[trigger] list@[i]).0 == dir,
    {
        let mut list: Vec<(usize, Coord)> = Vec::new();
        let mut dir: usize = 0;
        while dir < 4
            invariant
                self.shaped(),
                self.in_bounds(coord),
                dir <= 4,
                list@.len() <= dir,
                forall|i: int|
                    0 <= i < list@.len() ==> self.offers(coord, reach_type, (#[trigger] list@[i]).0)
                        && list@[i].1 == neighbour_of(coord, list@[i].0) && list@[i].0 < dir,
                forall|i: int, j: int|
                    0 <= i < j < list@.len() ==> (#[trigger] list@[i]).0 < (#[trigger] list@[j]).0,
                forall|d: usize|
                    d < dir && self.offers(coord, reach_type, d) ==> exists|i: int|
                        0 <= i < list@.len() && (#[trigger] list@[i]).0 == d,
            decreases 4 - dir,
        {
            let ghost before = list@;
            match self.neighbour(coord, dir) {
                Some(other) => {
                    if reach_type.accepts(self.cell_at(other).reachable()) {
                        list.push((dir, other));
                        proof {
                            assert(list@[before.len() as int].0 == dir);
                            assert forall|d: usize|
                                d < dir + 1 && self.offers(coord, reach_type, d) implies exists|
                                i: int,
                            |
                                0 <= i < list@.len() && (#[trigger] list@[i]).0 == d by {
                                if d < dir {
                                    let i = choose|i: int|
                                        0 <= i < before.len() && (#[trigger] before[i]).0 == d;
                                    assert(list@[i].0 == d);
                                }
                            }
                        }
                    }
                },
                None => {},
            }
            dir = dir + 1;
        }
        list
    }

    /// How many of the sides north, east, south, west below `upto` have a cell of the
    /// grid next to `coord`.
    pub open spec fn neighbours_below(&self, coord: Coord, upto: usize) -> nat
        decreases upto,
    {
        if upto == 0 {
            0
        } else {
            self.neighbours_below(coord, (upto - 1) as usize) + if self.has_neighbour(
                coord,
                (upto - 1) as usize,
            ) {
                1nat
            } else {
                0nat
            }
        }
    }

    /// How many cells of the grid lie next to `coord`.
    pub open spec fn neighbour_count(&self, coord: Coord) -> nat {
        self.neighbours_below(coord, 4)
    }

    /// The neighbour of `coord` with the number `n`, counted in the order north,
    /// east, south, west from 0, with the side on which it lies.
    pub open spec fn nth_neighbour(&self, coord: Coord, n: usize) -> (usize, Coord) {
        let dir: usize = if self.neighbours_below(coord, 1) > n {
            NORTH
        } else if self.neighbours_below(coord, 2) > n {
            EAST
        } else if self.neighbours_below(coord, 3) > n {
            SOUTH
        } else {
            WEST
        };
        (dir, neighbour_of(coord, dir))
    }

    /// The neighbour with the number `n` lies on a side on which the grid has a cell.
    pub proof fn lemma_nth_neighbour(&self, coord: Coord, n: usize)
        requires
            n < self.neighbour_count(coord),
        ensures
            self.nth_neighbour(coord, n).0 < 4,
            self.has_neighbour(coord, self.nth_neighbour(coord, n).0),
            self.nth_neighbour(coord, n).1 == neighbour_of(coord, self.nth_neighbour(coord, n).0),
            self.neighbours_below(coord, self.nth_neighbour(coord, n).0) == n,
    {
        reveal_with_fuel(Maze::neighbours_below, 5);
    }

    /// A cell with a neighbour on some side has at least one neighbour.
    pub proof fn lemma_neighbour_count(&self, coord: Coord, dir: usize)
        requires
            dir < 4,
            self.has_neighbour(coord, dir),
        ensures
            self.neighbour_count(coord) >= 1,
            self.neighbour_count(coord) <= 4,
    {
        reveal_with_fuel(Maze::neighbours_below, 5);
    }

    /// The unfiltered adjacency list holds the neighbours in the order of their numbers.
    pub proof fn lemma_neighbours_listed(&self, coord: Coord, list: Seq<(usize, Coord)>)
        requires
            forall|i: int|
                0 <= i < list.len() ==> self.offers(
                    coord,
                    CellReachType::Anything,
                    (#[trigger] list[i]).0,
                ) && list[i].1 == neighbour_of(coord, list[i].0),
            forall|i: int, j: int|
                0 <= i < j < list.len() ==> (#[trigger] list[i]).0 < (#[trigger] list[j]).0,
            forall|dir: usize|
                self.offers(coord, CellReachType::Anything, dir) ==> exists|i: int|
                    0 <= i < list.len() && (#[trigger] list[i]).0 == dir,
        ensures
            list.len() == self.neighbour_count(coord),
            forall|n: usize| n < list.len() ==> list[n as int] == self.nth_neighbour(coord, n),
    {
        self.lemma_neighbours_prefix(coord, list, 4);
        if list.len() > 0 {
            assert(self.offers(coord, CellReachType::Anything, list[list.len() - 1].0));
        }
        assert forall|n: usize| n < list.len() implies list[n as int] == self.nth_neighbour(
            coord,
            n,
        ) by {
            let e = list[n as int];
            assert(self.offers(coord, CellReachType::Anything, e.0));
            self.lemma_neighbours_prefix(coord, list, e.0);
            self.lemma_neighbours_prefix(coord, list, (e.0 + 1) as usize);
            self.lemma_nth_neighbour(coord, n);
            let d = self.nth_neighbour(coord, n).0;
            self.lemma_neighbours_prefix(coord, list, d);
            self.lemma_neighbours_prefix(coord, list, (d + 1) as usize);
            self.lemma_below_monotone(coord, e.0, d);
            self.lemma_below_monotone(coord, d, e.0);
            self.lemma_below_monotone(coord, (e.0 + 1) as usize, d);
            self.lemma_below_monotone(coord, (d + 1) as usize, e.0);
        }
    }

    /// Counting neighbours below a larger bound gives no smaller number.
    pub proof fn lemma_below_monotone(&self, coord: Coord, a: usize, b: usize)
        ensures
            a <= b ==> self.neighbours_below(coord, a) <= self.neighbours_below(coord, b),
        decreases b,
    {
        if a < b {
            self.lemma_below_monotone(coord, a, (b - 1) as usize);
        }
    }

    /// The entries of an unfiltered adjacency list on sides below `upto` are as many
    /// as the grid has neighbours on those sides.
    pub proof fn lemma_neighbours_prefix(&self, coord: Coord, list: Seq<(usize, Coord)>, upto: usize)
        requires
            upto <= 4,
            forall|i: int|
                0 <= i < list.len() ==> self.offers(
                    coord,
                    CellReachType::Anything,
                    (#[trigger] list[i]).0,
                ),
            forall|i: int, j: int|
                0 <= i < j < list.len() ==> (#[trigger] list[i]).0 < (#[trigger] list[j]).0,
            forall|dir: usize|
                self.offers(coord, CellReachType::Anything, dir) ==> exists|i: int|
                    0 <= i < list.len() && (#[trigger] list[i]).0 == dir,
        ensures
            0 <= self.neighbours_below(coord, upto) <= list.len(),
            forall|i: int|
                0 <= i < list.len() ==> ((#[trigger] list[i]).0 < upto <==> i
                    < self.neighbours_below(coord, upto)),
        decreases upto,
    {
        if upto > 0 {
            let d = (upto - 1) as usize;
            self.lemma_neighbours_prefix(coord, list, d);
            let k = self.neighbours_below(coord, d) as int;
            if self.has_neighbour(coord, d) {
                assert(self.offers(coord, CellReachType::Anything, d));
                let i = choose|i: int| 0 <= i < list.len() && (#[trigger] list[i]).0 == d;
                assert(!(list[i].0 < d));
                assert(i >= k);
                if i > k {
                    assert(list[k].0 < list[i].0);
                    assert(list[k].0 < d);
                }
                assert(i == k);
                assert forall|j: int| 0 <= j < list.len() implies ((#[trigger] list[j]).0 < upto
                    <==> j < k + 1) by {
                    if j > k {
                        assert(list[k].0 < list[j].0);
                    }
                }
            } else {
                assert forall|j: int| 0 <= j < list.len() implies ((#[trigger] list[j]).0 < upto
                    <==> j < k) by {
                    assert(self.offers(coord, CellReachType::Anything, list[j].0));
                }
            }
        } else {
            assert forall|j: int| 0 <= j < list.len() implies ((#[trigger] list[j]).0 < upto
                <==> j < 0) by {}
        }
    }

    /// Counts the cells of the grid that lie next to `coord`.
    pub fn count_neighbours(&self, coord: Coord) -> (count: usize)
        requires
            self.shaped(),
            self.in_bounds(coord),
        ensures
            count == self.neighbour_count(coord),
    {
        let list = self.neighbours(coord, CellReachType::Anything);
        proof {
            self.lemma_neighbours_listed(coord, list@);
        }
        list.len()
    }

    /// Marks the cell at `coord` as reached without touching a wall.
    pub fn mark_reached(&mut self, coord: Coord)
        requires
            old(self).wf(),
            old(self).in_bounds(coord),
        ensures
            final(self).wf(),
            final(self).width == old(self).width,
            final(self).height == old(self).height,
            forall|c: Coord, dir: usize|
                old(self).in_bounds(c) && dir < 4 ==> #[trigger] final(self).wall_open(c, dir)
                    == old(self).wall_open(c, dir),
            forall|c: Coord| #[trigger]
                old(self).in_bounds(c) ==> final(self).marked_at(c) == (c == coord
                    || old(self).marked_at(c)),
    {
        let i = self.index_of(coord);
        self.cells[i].mark_reached();
        proof {
            let before = *old(self);
            let after = *self;
            assert forall|c: Coord, dir: usize| before.in_bounds(c) && dir < 4 implies #[trigger]
                after.wall_open(c, dir) == before.wall_open(c, dir) by {
                lemma_index_in_range(
                    before.width as int,
                    before.height as int,
                    c.x as int,
                    c.y as int,
                );
            }
            assert forall|c: Coord| #[trigger] before.in_bounds(c) implies after.marked_at(c) == (c
                == coord || before.marked_at(c)) by {
                lemma_index_in_range(
                    before.width as int,
                    before.height as int,
                    c.x as int,
                    c.y as int,
                );
                if c != coord {
                    if before.cell_index(c) == before.cell_index(coord) {
                        lemma_index_injective(
                            before.width as int,
                            c.x as int,
                            c.y as int,
                            coord.x as int,
                            coord.y as int,
                        );
                    }
                }
            }
            assert(after.walls_pair_up()) by {
                reveal(Maze::walls_pair_up);
                assert forall|c: Coord, dir: usize|
                    after.in_bounds(c) && after.has_neighbour(c, dir) implies #[trigger]
                    after.wall_open(c, dir) == after.wall_open(
                        neighbour_of(c, dir),
                        opposite(dir),
                    ) by {
                    before.lemma_neighbour_back(c, dir);
                    assert(before.wall_open(c, dir) == before.wall_open(
                        neighbour_of(c, dir),
                        opposite(dir),
                    ));
                }
            }
        }
    }

    /// Opens the wall of the cell at (`x`, `y`) on the side `dir` and, where the grid
    /// has a cell on that side, the wall of that cell which faces back. The wall
    /// must stand.
    pub fn connect_cells(&mut self, x: usize, y: usize, dir: usize)
        requires
            old(self).wf(),
            x < old(self).width,
            y < old(self).height,
            dir < 4,
            !old(self).wall_open(Pair { x, y }, dir),
        ensures
            final(self).wf(),
            final(self).width == old(self).width,
            final(self).height == old(self).height,
            forall|c: Coord, d: usize|
                old(self).in_bounds(c) && d < 4 ==> #[trigger] final(self).wall_open(c, d) == (old(
                    self,
                ).wall_open(c, d) || (c == (Pair { x, y }) && d == dir) || (old(self).has_neighbour(
                    Pair { x, y },
                    dir,
                ) && c == neighbour_of(Pair { x, y }, dir) && d == opposite(dir))),
            forall|c: Coord| #[trigger]
                old(self).in_bounds(c) ==> final(self).marked_at(c) == old(self).marked_at(c),
    {
        let here = Pair::new(x, y);
        let i = self.index_of(here);
        self.cells[i].open(dir);
        let there = self.neighbour(here, dir);
        let back = opposite_dir(dir);
        match there {
            Some(other) => {
                let j = self.index_of(other);
                proof {
                    // The wall that faces back stands as well: walls pair up.
                    old(self).lemma_wall_symmetry(here, dir);
                    old(self).lemma_neighbour_back(here, dir);
                    old(self).lemma_cell_index_facts(here, other);
                }
                self.cells[j].open(back);
            },
            None => {},
        }
        proof {
            let before = *old(self);
            let after = *self;
            assert forall|c: Coord, d: usize| before.in_bounds(c) && d < 4 implies #[trigger]
                after.wall_open(c, d) == (before.wall_open(c, d) || (c == here && d == dir) || (
                before.has_neighbour(here, dir) && c == neighbour_of(here, dir) && d == opposite(
                    dir,
                ))) by {
                before.lemma_cell_index_facts(c, here);
                if there.is_some() {
                    before.lemma_cell_index_facts(c, there.unwrap());
                    before.lemma_cell_index_facts(here, there.unwrap());
                }
            }
            assert forall|c: Coord| #[trigger] before.in_bounds(c) implies after.marked_at(c)
                == before.marked_at(c) by {
                before.lemma_cell_index_facts(c, here);
                if there.is_some() {
                    before.lemma_cell_index_facts(c, there.unwrap());
                }
            }
            assert(after.walls_pair_up()) by {
                reveal(Maze::walls_pair_up);
                assert forall|c: Coord, d: usize|
                    after.in_bounds(c) && after.has_neighbour(c, d) implies #[trigger]
                    after.wall_open(c, d) == after.wall_open(neighbour_of(c, d), opposite(d)) by {
                    before.lemma_neighbour_back(c, d);
                    if before.has_neighbour(here, dir) {
                        before.lemma_neighbour_back(here, dir);
                    }
                    assert(before.wall_open(c, d) == before.wall_open(
                        neighbour_of(c, d),
                        opposite(d),
                    ));
                    assert(after.wall_open(neighbour_of(c, d), opposite(d)) == (before.wall_open(
                        neighbour_of(c, d),
                        opposite(d),
                    ) || (neighbour_of(c, d) == here && opposite(d) == dir) || (
                    before.has_neighbour(here, dir) && neighbour_of(c, d) == neighbour_of(
                        here,
                        dir,
                    ) && opposite(d) == opposite(dir))));
                }
            }
        }
    }

    /// A list of cells of the grid that names none twice is no longer than the grid
    /// has cells.
    pub proof fn lemma_distinct_cells_bounded(&self, cells: Seq<Coord>)
        requires
            cells.no_duplicates(),
            forall|i: int| 0 <= i < cells.len() ==> self.in_bounds(#[trigger] cells[i]),
        ensures
            cells.len() <= self.width * self.height,
    {
        let places = cells.map_values(|c: Coord| self.cell_index(c));
        let count = self.width * self.height;
        assert(count >= 0) by (nonlinear_arith)
            requires
                count == self.width * self.height,
        ;
        assert forall|i: int, j: int|
            0 <= i < places.len() && 0 <= j < places.len() && i != j implies places[i]
            != places[j] by {
            assert(self.in_bounds(cells[i]) && self.in_bounds(cells[j]));
            if places[i] == places[j] {
                lemma_index_injective(
                    self.width as int,
                    cells[i].x as int,
                    cells[i].y as int,
                    cells[j].x as int,
                    cells[j].y as int,
                );
            }
        }
        places.unique_seq_to_set();
        vstd::set_lib::lemma_int_range(0, count);
        assert forall|p: int| places.to_set().contains(p) implies vstd::set_lib::set_int_range(
            0,
            count,
        ).contains(p) by {
            let i = choose|i: int| 0 <= i < places.len() && places[i] == p;
            assert(self.in_bounds(cells[i]));
            lemma_index_in_range(
                self.width as int,
                self.height as int,
                cells[i].x as int,
                cells[i].y as int,
            );
        }
        vstd::set_lib::lemma_len_subset(places.to_set(), vstd::set_lib::set_int_range(0, count));
    }

    /// Carves this grid with the binary-tree algorithm.
    pub fn binary_tree_maze_creation(&mut self, rng: &mut StdRng)
        requires
            old(self).wf(),
            old(self).fully_walled(),
            old(self).width >= 1,
            old(self).height >= 1,
        ensures
            final(self).width == old(self).width,
            final(self).height == old(self).height,
            is_binary_tree(final(self)),
            final(self).is_perfect(),
    {
        MazeBuilder::binary_tree_maze_creation(self, rng);
    }

    /// Carves this grid with the sidewinder.
    pub fn sidewinder_maze_creation(&mut self, rng: &mut StdRng)
        requires
            old(self).wf(),
            old(self).fully_walled(),
            old(self).width >= 1,
            old(self).height >= 1,
        ensures
            final(self).wf(),
            final(self).width == old(self).width,
            final(self).height == old(self).height,
            final(self).enclosed(),
            is_sidewinder(final(self)),
            final(self).is_perfect(),
    {
        MazeBuilder::sidewinder_maze_creation(self, rng);
    }

    /// Carves this grid with the randomized growing tree, from `start`.
    pub fn random_maze_creation(&mut self, start: Coord, rng: &mut StdRng)
        requires
            old(self).wf(),
            old(self).fully_walled(),
            old(self).in_bounds(start),
        ensures
            final(self).wf(),
            final(self).width == old(self).width,
            final(self).height == old(self).height,
            final(self).enclosed(),
            final(self).is_perfect(),
    {
        MazeBuilder::random_maze_creation(self, start, rng);
    }

    /// Finds a shortest walk from `start` to `finish` through this grid.
    pub fn dijkstra_path_finding(&self, start: Coord, finish: Coord) -> (path: Vec<Coord>)
        requires
            self.wf(),
            self.in_bounds(start),
            self.in_bounds(finish),
            self.width * self.height <= i32::MAX,
            self.joined(start, finish),
        ensures
            path@ == solution_walk(self, start, finish),
            self.walk_between(path@, start, finish),
            self.shortest(start, finish, path@.len() - 1),
    {
        Solver::dijkstra_path_finding_solver(self, start, finish)
    }

    /// Two cells of the grid lie at one position of the array only if they are equal,
    /// and every position is inside the array.
    pub proof fn lemma_cell_index_facts(&self, a: Coord, b: Coord)
        requires
            self.shaped(),
            self.in_bounds(a),
            self.in_bounds(b),
        ensures
            0 <= self.cell_index(a) < self.cells@.len(),
            0 <= self.cell_index(b) < self.cells@.len(),
            self.cell_index(a) == self.cell_index(b) ==> a == b,
    {
        lemma_index_in_range(self.width as int, self.height as int, a.x as int, a.y as int);
        lemma_index_in_range(self.width as int, self.height as int, b.x as int, b.y as int);
        if self.cell_index(a) == self.cell_index(b) {
            lemma_index_injective(
                self.width as int,
                a.x as int,
                a.y as int,
                b.x as int,
                b.y as int,
            );
        }
    }
}

} // verus!
