use crate::circle_maze_cell::{CircleMazeCell, CircleMazeCellDirection};
use crate::pair::Pair;
use crate::util::{CellReachType, Coord};
use vstd::arithmetic::div_mod::{
    lemma_div_multiples_vanish, lemma_fundamental_div_mod, lemma_fundamental_div_mod_converse,
    lemma_mod_add_multiples_vanish, lemma_mod_pos_bound, lemma_mod_self_0, lemma_small_mod,
};
use vstd::prelude::*;

verus! {

/// How many cells surround the hub.
pub const STARTER_CELL_SIDES: usize = 6;

/// A grid of rings around a hub. Ring 0 is the hub, a single cell; the rings grow
/// outwards, each with as many cells as the ring inside it or twice as many.
pub struct CircleMaze {
    pub height: usize,
    pub cells: Vec<Vec<CircleMazeCell>>,
}

/// How many cells as wide as a ring is high fit on the inner edge of `ring`: the
/// circumference at radius `ring - 1/2`, in ring heights, rounded down. The number
/// pi is taken as 13176795 / 4194304, its nearest value in single precision.
pub open spec fn arc_cells(ring: nat) -> nat {
    ((2 * ring - 1) * 13176795 / 4194304) as nat
}

/// The number of cells of `ring`. The hub is one cell and six cells surround it.
/// From there on a ring has as many cells as the ring inside it, and twice as
/// many as soon as that number of cells fits on its inner edge.
pub open spec fn ring_size(ring: nat) -> nat
    decreases ring,
{
    if ring == 0 {
        1
    } else {
        let inner = if ring == 1 {
            STARTER_CELL_SIDES as nat
        } else {
            ring_size((ring - 1) as nat)
        };
        if arc_cells(ring) >= 2 * inner {
            2 * inner
        } else {
            inner
        }
    }
}

/// How many cells the rings inside `ring` have together.
pub open spec fn cells_before(ring: nat) -> nat
    decreases ring,
{
    if ring == 0 {
        0
    } else {
        cells_before((ring - 1) as nat) + ring_size((ring - 1) as nat)
    }
}

/// The place of a cell in the list of all cells, ring by ring.
pub open spec fn cell_place(c: Coord) -> int {
    cells_before(c.y as nat) + c.x
}

/// Outer rings begin later in the list of all cells.
pub proof fn lemma_cells_before_grows(inner: nat, outer: nat)
    requires
        inner <= outer,
    ensures
        cells_before(inner) <= cells_before(outer),
    decreases outer,
{
    if inner < outer {
        lemma_cells_before_grows(inner, (outer - 1) as nat);
    }
}

/// How many cells of the next ring lie on the outer edge of a cell of `ring`.
pub open spec fn fan_out(ring: nat) -> nat {
    if ring == 0 {
        STARTER_CELL_SIDES as nat
    } else if ring_size(ring + 1) == 2 * ring_size(ring) {
        2
    } else {
        1
    }
}

/// How many walls a cell of `ring` has to the north in a grid of `height` rings:
/// the hub has six, a cell of the outermost ring none, any other cell one for each
/// cell of the next ring on its outer edge.
pub open spec fn north_paths(ring: nat, height: nat) -> nat {
    if ring == 0 {
        STARTER_CELL_SIDES as nat
    } else if ring + 1 == height {
        0
    } else {
        fan_out(ring)
    }
}

/// Ring sizes: six cells surround the hub, a ring is never smaller than six cells
/// nor larger than eight times its number, and the next ring has `fan_out` cells
/// for each of its cells, which beyond the hub is one or two.
pub proof fn lemma_ring_sizes(ring: nat)
    ensures
        ring_size(0) == 1,
        ring_size(1) == 6,
        ring >= 1 ==> 6 <= ring_size(ring) <= 8 * ring,
        ring_size(ring + 1) == fan_out(ring) * ring_size(ring),
        ring >= 1 ==> fan_out(ring) == 1 || fan_out(ring) == 2,
    decreases ring,
{
    reveal_with_fuel(ring_size, 3);
    assert(arc_cells(1) == 3);
    assert(ring_size(1) == 6);
    if ring >= 1 {
        if ring > 1 {
            lemma_ring_sizes((ring - 1) as nat);
        }
        let inner = ring_size(ring);
        assert(arc_cells(ring) <= 4 * (2 * ring - 1));
        assert(arc_cells(ring + 1) <= 4 * (2 * (ring + 1) - 1));
        assert(ring_size(ring + 1) == if arc_cells(ring + 1) >= 2 * inner {
            2 * inner
        } else {
            inner
        });
    } else {
        assert(fan_out(0) == 6);
        assert(ring_size(0) == 1);
    }
}

/// Steps around a ring of `len` cells: east and then west, or west and then east,
/// lead back, and in a ring of two or more cells a step leads to another cell.
pub proof fn lemma_ring_steps(x: int, len: int)
    requires
        0 <= x < len,
    ensures
        0 <= (x + 1) % len < len,
        0 <= (x + len - 1) % len < len,
        ((x + 1) % len + len - 1) % len == x,
        ((x + len - 1) % len + 1) % len == x,
        len >= 2 ==> (x + 1) % len != x && (x + len - 1) % len != x,
{
    if x + 1 < len {
        lemma_small_mod((x + 1) as nat, len as nat);
        lemma_mod_add_multiples_vanish(x, len);
        lemma_small_mod(x as nat, len as nat);
    } else {
        lemma_mod_self_0(len);
        lemma_small_mod((len - 1) as nat, len as nat);
    }
    if x >= 1 {
        lemma_mod_add_multiples_vanish(x - 1, len);
        lemma_small_mod((x - 1) as nat, len as nat);
        lemma_small_mod(x as nat, len as nat);
    } else {
        lemma_small_mod((len - 1) as nat, len as nat);
        lemma_mod_self_0(len);
    }
}

/// Steps between rings, where one cell faces `scale` cells of the next ring: the
/// `n`-th of them has that cell to its south and is its `n`-th to the north.
pub proof fn lemma_scale_steps(x: int, scale: int, n: int)
    requires
        0 <= x,
        0 < scale,
        0 <= n < scale,
    ensures
        (x * scale + n) / scale == x,
        (x * scale + n) % scale == n,
        (x / scale) * scale + x % scale == x,
        0 <= x % scale < scale,
        0 <= x / scale,
{
    lemma_fundamental_div_mod_converse(x * scale + n, scale, x, n);
    lemma_fundamental_div_mod(x, scale);
    lemma_mod_pos_bound(x, scale);
    assert(scale * (x / scale) == (x / scale) * scale) by (nonlinear_arith);
    vstd::arithmetic::div_mod::lemma_div_pos_is_pos(x, scale);
}

impl CircleMaze {
    /// Whether `c` names a cell of this grid.
    pub open spec fn in_bounds(&self, c: Coord) -> bool {
        c.y < self.height && c.x < ring_size(c.y as nat)
    }

    /// The cell at `c`.
    pub open spec fn cell(&self, c: Coord) -> CircleMazeCell {
        self.cells@[c.y as int]@[c.x as int]
    }

    /// Whether the wall of `c` on the side `dir` is open.
    pub open spec fn wall_open(&self, c: Coord, dir: CircleMazeCellDirection) -> bool {
        self.cell(c).open_at(dir)
    }

    /// Whether `c` counts as reached: one of its walls is open.
    pub open spec fn reached(&self, c: Coord) -> bool {
        self.cell(c).is_reachable()
    }

    /// Whether the grid has a cell next to `c` on the side `dir`. Every cell but the
    /// hub has one to the east, to the south and to the west; to the north a cell
    /// has as many as [`north_paths`] says.
    pub open spec fn has_neighbour(&self, c: Coord, dir: CircleMazeCellDirection) -> bool {
        &&& self.in_bounds(c)
        &&& match dir {
            CircleMazeCellDirection::North(n) => c.y + 1 < self.height && n < north_paths(
                c.y as nat,
                self.height as nat,
            ),
            _ => c.y > 0,
        }
    }

    /// The cell next to `c` on the side `dir`: around the ring for east and west,
    /// one ring in for south, one ring out for north.
    pub open spec fn neighbour_of(c: Coord, dir: CircleMazeCellDirection) -> Coord {
        let len = ring_size(c.y as nat) as int;
        match dir {
            CircleMazeCellDirection::East => Pair { x: ((c.x + 1) % len) as usize, y: c.y },
            CircleMazeCellDirection::West => Pair { x: ((c.x + len - 1) % len) as usize, y: c.y },
            CircleMazeCellDirection::South => Pair {
                x: (c.x as int / fan_out((c.y - 1) as nat) as int) as usize,
                y: (c.y - 1) as usize,
            },
            CircleMazeCellDirection::North(n) => Pair {
                x: (c.x * fan_out(c.y as nat) + n) as usize,
                y: (c.y + 1) as usize,
            },
        }
    }

    /// The side of the neighbour that faces `c`, where the neighbour lies on the side
    /// `dir` of `c`.
    pub open spec fn opposite_of(c: Coord, dir: CircleMazeCellDirection) -> CircleMazeCellDirection {
        match dir {
            CircleMazeCellDirection::East => CircleMazeCellDirection::West,
            CircleMazeCellDirection::West => CircleMazeCellDirection::East,
            CircleMazeCellDirection::North(_) => CircleMazeCellDirection::South,
            CircleMazeCellDirection::South => CircleMazeCellDirection::North(
                (c.x as int % fan_out((c.y - 1) as nat) as int) as usize,
            ),
        }
    }

    /// What the cell at `c` has to be: in shape, with walls to the east, south and
    /// west unless it is the hub, and with its share of walls to the north.
    pub open spec fn cell_fits(&self, c: Coord) -> bool {
        &&& self.cell(c).wf()
        &&& self.cell(c).has_defaults() == (c.y != 0)
        &&& self.cell(c).norths() == north_paths(c.y as nat, self.height as nat)
    }

    /// Well-formedness: the rings have their sizes and the cells their walls.
    pub open spec fn wf(&self) -> bool {
        &&& self.cells@.len() == self.height
        &&& self.height <= usize::MAX / 16
        &&& forall|r: int|
            0 <= r < self.height ==> (#[trigger] self.cells@[r])@.len() == ring_size(r as nat)
        &&& forall|c: Coord| #[trigger] self.in_bounds(c) ==> self.cell_fits(c)
    }

    /// Walls between two cells are open on both sides or on neither.
    #[verifier::opaque]
    pub open spec fn walls_pair_up(&self) -> bool {
        forall|c: Coord, dir: CircleMazeCellDirection|
            self.has_neighbour(c, dir) ==> #[trigger] self.wall_open(c, dir) == self.wall_open(
                Self::neighbour_of(c, dir),
                Self::opposite_of(c, dir),
            )
    }

    /// Stepping to a neighbour and back, through the wall that faces back, ends at
    /// the same cell and the same wall. In particular south and north undo each
    /// other.
    pub proof fn lemma_neighbour_back(&self, c: Coord, dir: CircleMazeCellDirection)
        requires
            self.height <= usize::MAX / 16,
            self.has_neighbour(c, dir),
        ensures
            self.has_neighbour(Self::neighbour_of(c, dir), Self::opposite_of(c, dir)),
            Self::neighbour_of(Self::neighbour_of(c, dir), Self::opposite_of(c, dir)) == c,
            Self::opposite_of(Self::neighbour_of(c, dir), Self::opposite_of(c, dir)) == dir,
            Self::neighbour_of(c, dir) != c,
    {
        let len = ring_size(c.y as nat) as int;
        lemma_ring_sizes(c.y as nat);
        match dir {
            CircleMazeCellDirection::East => {
                lemma_ring_steps(c.x as int, len);
            },
            CircleMazeCellDirection::West => {
                lemma_ring_steps(c.x as int, len);
            },
            CircleMazeCellDirection::South => {
                let inner = (c.y - 1) as nat;
                lemma_ring_sizes(inner);
                let scale = fan_out(inner) as int;
                lemma_scale_steps(c.x as int, scale, 0);
                let q = c.x as int / scale;
                assert(q < ring_size(inner)) by {
                    if q >= ring_size(inner) {
                        assert(q * scale >= ring_size(inner) * scale) by (nonlinear_arith)
                            requires
                                q >= ring_size(inner),
                                scale > 0,
                        ;
                        assert(ring_size(inner) * scale == scale * ring_size(inner))
                            by (nonlinear_arith);
                    }
                }
                lemma_ring_sizes(c.y as nat);
            },
            CircleMazeCellDirection::North(n) => {
                let scale = fan_out(c.y as nat) as int;
                lemma_scale_steps(c.x as int, scale, n as int);
                lemma_ring_sizes((c.y + 1) as nat);
                assert(c.x * scale + n < scale * len) by (nonlinear_arith)
                    requires
                        0 <= c.x < len,
                        0 <= n < scale,
                ;
            },
        }
    }

    /// The symmetry of walls: the wall of `c` on the side `dir` is open exactly when
    /// the neighbour's wall that faces `c` is open.
    pub proof fn lemma_wall_symmetry(&self, c: Coord, dir: CircleMazeCellDirection)
        requires
            self.wf(),
            self.walls_pair_up(),
            self.has_neighbour(c, dir),
        ensures
            self.wall_open(c, dir) == self.wall_open(
                Self::neighbour_of(c, dir),
                Self::opposite_of(c, dir),
            ),
    {
        reveal(CircleMaze::walls_pair_up);
    }

    /// A cell has a wall on every side on which it has a neighbour.
    pub proof fn lemma_sides(&self, c: Coord, dir: CircleMazeCellDirection)
        requires
            self.wf(),
            self.has_neighbour(c, dir),
        ensures
            self.cell(c).wf(),
            self.cell(c).has_side(dir),
    {
        assert(self.cell_fits(c));
    }

    /// Every cell has a place of its own in the list of all cells.
    pub proof fn lemma_cell_places(&self, a: Coord, b: Coord)
        requires
            self.in_bounds(a),
            self.in_bounds(b),
        ensures
            0 <= cell_place(a) < cells_before(self.height as nat),
            cell_place(a) == cell_place(b) ==> a == b,
    {
        lemma_cells_before_grows((a.y + 1) as nat, self.height as nat);
        if a.y < b.y {
            lemma_cells_before_grows((a.y + 1) as nat, b.y as nat);
        } else if b.y < a.y {
            lemma_cells_before_grows((b.y + 1) as nat, a.y as nat);
        }
    }

    /// A list of cells of the grid that names none twice is no longer than the grid
    /// has cells.
    pub proof fn lemma_distinct_cells_bounded(&self, cells: Seq<Coord>)
        requires
            cells.no_duplicates(),
            forall|i: int| 0 <= i < cells.len() ==> self.in_bounds(#[trigger] cells[i]),
        ensures
            cells.len() <= cells_before(self.height as nat),
    {
        let places = cells.map_values(|c: Coord| cell_place(c));
        let count = cells_before(self.height as nat) as int;
        assert forall|i: int, j: int|
            0 <= i < places.len() && 0 <= j < places.len() && i != j implies places[i]
            != places[j] by {
            assert(self.in_bounds(cells[i]) && self.in_bounds(cells[j]));
            self.lemma_cell_places(cells[i], cells[j]);
        }
        places.unique_seq_to_set();
        vstd::set_lib::lemma_int_range(0, count);
        assert forall|p: int| places.to_set().contains(p) implies vstd::set_lib::set_int_range(
            0,
            count,
        ).contains(p) by {
            let i = choose|i: int| 0 <= i < places.len() && places[i] == p;
            assert(self.in_bounds(cells[i]));
            self.lemma_cell_places(cells[i], cells[i]);
        }
        vstd::set_lib::lemma_len_subset(places.to_set(), vstd::set_lib::set_int_range(0, count));
    }

    /// Whether the grid has at most `limit` cells.
    pub fn cells_within(&self, limit: usize) -> (within: bool)
        requires
            self.wf(),
        ensures
            within == (cells_before(self.height as nat) <= limit),
    {
        let mut total: usize = 0;
        let mut r: usize = 0;
        while r < self.height
            invariant
                self.wf(),
                r <= self.height,
                total == cells_before(r as nat),
                total <= limit,
            decreases self.height - r,
        {
            let ring_len = self.cells[r].len();
            if ring_len > limit - total {
                proof {
                    lemma_cells_before_grows((r + 1) as nat, self.height as nat);
                }
                return false;
            }
            total = total + ring_len;
            r = r + 1;
        }
        true
    }

    /// A grid of `height` rings in which every wall stands.
    pub fn new(height: usize) -> (maze: CircleMaze)
        requires
            height <= usize::MAX / 16,
        ensures
            maze.height == height,
            maze.wf(),
            maze.walls_pair_up(),
            forall|c: Coord| #[trigger] maze.in_bounds(c) ==> !maze.reached(c),
    {
        let mut current_cell_count: usize = STARTER_CELL_SIDES;
        let mut cell_counts: Vec<usize> = Vec::new();
        cell_counts.push(1);
        let mut h: usize = 1;
        proof {
            lemma_ring_sizes(0);
        }
        while h < height
            invariant
                height <= usize::MAX / 16,
                1 <= h,
                h <= height || height == 0,
                cell_counts@.len() == h,
                forall|i: int| 0 <= i < h ==> #[trigger] cell_counts@[i] == ring_size(i as nat),
                current_cell_count == if h == 1 {
                    6
                } else {
                    ring_size((h - 1) as nat)
                },
            decreases height - h,
        {
            proof {
                lemma_ring_sizes(h as nat);
                lemma_ring_sizes((h - 1) as nat);
                reveal_with_fuel(ring_size, 2);
            }
            let wide: u128 = 2 * (h as u128) - 1;
            let possible_cell_count: u128 = wide * 13176795 / 4194304;
            if possible_cell_count >= (current_cell_count as u128) * 2 {
                current_cell_count = current_cell_count * 2;
            }
            cell_counts.push(current_cell_count);
            h = h + 1;
        }
        let mut cells: Vec<Vec<CircleMazeCell>> = Vec::new();
        let mut i: usize = 0;
        while i < height
            invariant
                height <= usize::MAX / 16,
                i <= height,
                cell_counts@.len() >= height,
                forall|k: int|
                    0 <= k < cell_counts@.len() ==> #[trigger] cell_counts@[k] == ring_size(k as nat),
                cells@.len() == i,
                forall|r: int| 0 <= r < i ==> (#[trigger] cells@[r])@.len() == ring_size(r as nat),
                forall|r: int, x: int|
                    0 <= r < i && 0 <= x < ring_size(r as nat) ==> fresh_cell(
                        #[trigger] cells@[r]@[x],
                        r as nat,
                        height as nat,
                    ),
            decreases height - i,
        {
            proof {
                lemma_ring_sizes(i as nat);
            }
            let cell_north_path_count: usize = if i == 0 {
                STARTER_CELL_SIDES
            } else if i == height - 1 {
                0
            } else {
                if cell_counts[i + 1] == cell_counts[i] * 2 {
                    2
                } else {
                    1
                }
            };
            let cell_has_default_paths = i != 0;
            let mut ring: Vec<CircleMazeCell> = Vec::new();
            let mut k: usize = 0;
            while k < cell_counts[i]
                invariant
                    i < height,
                    cell_counts@.len() >= height,
                    k <= cell_counts@[i as int],
                    ring@.len() == k,
                    cell_north_path_count <= 6,
                    cell_north_path_count == north_paths(i as nat, height as nat),
                    cell_has_default_paths == (i != 0),
                    forall|x: int|
                        0 <= x < k ==> fresh_cell(#[trigger] ring@[x], i as nat, height as nat),
                decreases cell_counts@[i as int] - k,
            {
                ring.push(CircleMazeCell::new(cell_has_default_paths, cell_north_path_count));
                k = k + 1;
            }
            cells.push(ring);
            i = i + 1;
        }
        let maze = CircleMaze { height, cells };
        proof {
            assert forall|c: Coord| #[trigger] maze.in_bounds(c) implies maze.cell_fits(c)
                && !maze.reached(c) by {
                assert(fresh_cell(maze.cells@[c.y as int]@[c.x as int], c.y as nat, height as nat));
            }
            assert(maze.walls_pair_up()) by {
                reveal(CircleMaze::walls_pair_up);
                assert forall|c: Coord, dir: CircleMazeCellDirection|
                    maze.has_neighbour(c, dir) implies #[trigger] maze.wall_open(c, dir)
                    == maze.wall_open(
                    CircleMaze::neighbour_of(c, dir),
                    CircleMaze::opposite_of(c, dir),
                ) by {
                    maze.lemma_neighbour_back(c, dir);
                    let n = CircleMaze::neighbour_of(c, dir);
                    let o = CircleMaze::opposite_of(c, dir);
                    assert(maze.in_bounds(c) && maze.in_bounds(n));
                    assert(fresh_cell(maze.cell(c), c.y as nat, height as nat));
                    assert(fresh_cell(maze.cell(n), n.y as nat, height as nat));
                    assert(maze.cell(c).has_side(dir));
                    assert(maze.cell(n).has_side(o));
                }
            }
        }
        maze
    }

    /// The cell at `coord`.
    pub fn cell_at(&self, coord: Coord) -> (cell: &CircleMazeCell)
        requires
            coord.y < self.cells@.len(),
            coord.x < self.cells@[coord.y as int]@.len(),
        ensures
            *cell == self.cell(coord),
    {
        &self.cells[coord.y][coord.x]
    }

    /// Whether the wall of the cell at `coord` towards its neighbour on the side `dir`
    /// is open.
    pub fn is_open(&self, coord: Coord, dir: CircleMazeCellDirection) -> (open: bool)
        requires
            self.wf(),
            self.has_neighbour(coord, dir),
        ensures
            open == self.wall_open(coord, dir),
    {
        proof {
            self.lemma_sides(coord, dir);
            assert(self.cells@[coord.y as int]@.len() == ring_size(coord.y as nat));
        }
        self.cell_at(coord).is_open_at(dir)
    }

    /// The cell at `coord`, to be changed in place.
    pub fn cell_at_mut(&mut self, coord: Coord) -> (cell: &mut CircleMazeCell)
        requires
            coord.y < old(self).cells@.len(),
            coord.x < old(self).cells@[coord.y as int]@.len(),
        ensures
            *cell == old(self).cell(coord),
            final(self).height == old(self).height,
            final(self).cells@.len() == old(self).cells@.len(),
            forall|r: int|
                0 <= r < old(self).cells@.len() && r != coord.y ==> #[trigger] final(self).cells@[r]
                    == old(self).cells@[r],
            final(self).cells@[coord.y as int]@ == old(self).cells@[coord.y as int]@.update(
                coord.x as int,
                *final(cell),
            ),
    {
        &mut self.cells[coord.y][coord.x]
    }

    /// The cell next to `coord` on the side `dir` and the side of it that faces back.
    pub fn step(&self, coord: Coord, dir: CircleMazeCellDirection) -> (to: (
        Coord,
        CircleMazeCellDirection,
    ))
        requires
            self.wf(),
            self.has_neighbour(coord, dir),
        ensures
            to.0 == Self::neighbour_of(coord, dir),
            to.1 == Self::opposite_of(coord, dir),
            self.has_neighbour(to.0, to.1),
            to.0 != coord,
    {
        proof {
            self.lemma_neighbour_back(coord, dir);
            lemma_ring_sizes(coord.y as nat);
            lemma_ring_sizes((coord.y + 1) as nat);
            if coord.y > 0 {
                lemma_ring_sizes((coord.y - 1) as nat);
            }
        }
        let current_row_len = self.cells[coord.y].len();
        match dir {
            CircleMazeCellDirection::East => (
                Pair::new((coord.x + 1) % current_row_len, coord.y),
                CircleMazeCellDirection::West,
            ),
            CircleMazeCellDirection::West => (
                Pair::new((coord.x + current_row_len - 1) % current_row_len, coord.y),
                CircleMazeCellDirection::East,
            ),
            CircleMazeCellDirection::South => {
                let lower_row_len = self.cells[coord.y - 1].len();
                proof {
                    lemma_div_multiples_vanish(
                        fan_out((coord.y - 1) as nat) as int,
                        lower_row_len as int,
                    );
                    assert(fan_out((coord.y - 1) as nat) * lower_row_len == lower_row_len * fan_out(
                        (coord.y - 1) as nat,
                    )) by (nonlinear_arith);
                }
                let cell_row_scale_diff = current_row_len / lower_row_len;
                (
                    Pair::new(coord.x / cell_row_scale_diff, coord.y - 1),
                    CircleMazeCellDirection::North(coord.x % cell_row_scale_diff),
                )
            },
            CircleMazeCellDirection::North(n) => {
                let upper_row_len = self.cells[coord.y + 1].len();
                proof {
                    lemma_div_multiples_vanish(
                        fan_out(coord.y as nat) as int,
                        current_row_len as int,
                    );
                    assert(fan_out(coord.y as nat) * current_row_len == current_row_len * fan_out(
                        coord.y as nat,
                    )) by (nonlinear_arith);
                    let scale = fan_out(coord.y as nat) as int;
                    assert(coord.x * scale + n < scale * current_row_len) by (nonlinear_arith)
                        requires
                            0 <= coord.x < current_row_len,
                            0 <= n < scale,
                    ;
                    assert(coord.x * scale >= 0) by (nonlinear_arith)
                        requires
                            coord.x >= 0,
                            scale >= 0,
                    ;
                }
                let cell_row_scale_diff = upper_row_len / current_row_len;
                (
                    Pair::new(coord.x * cell_row_scale_diff + n, coord.y + 1),
                    CircleMazeCellDirection::South,
                )
            },
        }
    }

    /// `after` is `self` with the wall of `at` on the side `dir` opened and nothing
    /// else changed.
    pub open spec fn opened_at(
        &self,
        after: &CircleMaze,
        at: Coord,
        dir: CircleMazeCellDirection,
    ) -> bool {
        &&& after.height == self.height
        &&& after.cells@.len() == self.cells@.len()
        &&& forall|r: int|
            0 <= r < self.height ==> (#[trigger] after.cells@[r])@.len() == self.cells@[r]@.len()
        &&& forall|c: Coord|
            #[trigger] self.in_bounds(c) && c != at ==> after.cell(c) == self.cell(c)
        &&& after.cell(at).wf()
        &&& after.cell(at).has_defaults() == self.cell(at).has_defaults()
        &&& after.cell(at).norths() == self.cell(at).norths()
        &&& after.cell(at).is_reachable()
        &&& forall|d: CircleMazeCellDirection|
            self.cell(at).has_side(d) ==> #[trigger] after.cell(at).open_at(d) == (d == dir
                || self.cell(at).open_at(d))
    }

    /// Opens one wall of the cell at `coord`.
    fn open_wall(&mut self, coord: Coord, dir: CircleMazeCellDirection)
        requires
            old(self).wf(),
            old(self).in_bounds(coord),
            old(self).cell(coord).has_side(dir),
            !old(self).wall_open(coord, dir),
        ensures
            old(self).opened_at(final(self), coord, dir),
            final(self).wf(),
    {
        proof {
            assert(self.cell_fits(coord));
        }
        self.cell_at_mut(coord).open(dir);
        proof {
            let before = *old(self);
            let after = *self;
            assert forall|r: int| 0 <= r < before.height implies (#[trigger] after.cells@[r])@.len()
                == before.cells@[r]@.len() by {
                if r != coord.y {
                    assert(after.cells@[r] == before.cells@[r]);
                }
            }
            assert forall|c: Coord| #[trigger] before.in_bounds(c) && c != coord implies after.cell(c)
                == before.cell(c) by {
                if c.y != coord.y {
                    assert(after.cells@[c.y as int] == before.cells@[c.y as int]);
                }
            }
            assert forall|c: Coord| #[trigger] after.in_bounds(c) implies after.cell_fits(c) by {
                assert(before.in_bounds(c));
                assert(before.cell_fits(c));
            }
            assert forall|r: int| 0 <= r < after.height implies (#[trigger] after.cells@[r])@.len()
                == ring_size(r as nat) by {
                assert(before.cells@[r]@.len() == ring_size(r as nat));
            }
        }
    }

    /// Opens the wall of the cell at `coord` on the side `dir` and the wall of the
    /// neighbour that faces back. Both walls must stand.
    pub fn connect_cells(&mut self, coord: Coord, dir: CircleMazeCellDirection)
        requires
            old(self).wf(),
            old(self).has_neighbour(coord, dir),
            !old(self).wall_open(coord, dir),
            !old(self).wall_open(Self::neighbour_of(coord, dir), Self::opposite_of(coord, dir)),
        ensures
            final(self).wf(),
            old(self).walls_pair_up() ==> final(self).walls_pair_up(),
            final(self).height == old(self).height,
            forall|c: Coord, d: CircleMazeCellDirection|
                old(self).in_bounds(c) && old(self).cell(c).has_side(d)
                    ==> #[trigger] final(self).wall_open(c, d) == (old(self).wall_open(c, d) || (c
                    == coord && d == dir) || (c == Self::neighbour_of(coord, dir) && d
                    == Self::opposite_of(coord, dir))),
            forall|c: Coord|
                #[trigger] old(self).in_bounds(c) && c != coord && c != Self::neighbour_of(
                    coord,
                    dir,
                ) ==> final(self).reached(c) == old(self).reached(c),
            final(self).reached(coord),
            final(self).reached(Self::neighbour_of(coord, dir)),
    {
        let to = self.step(coord, dir);
        proof {
            self.lemma_sides(coord, dir);
            self.lemma_sides(to.0, to.1);
        }
        self.open_wall(coord, dir);
        let ghost middle = *self;
        proof {
            assert(old(self).in_bounds(to.0));
            assert(middle.cell(to.0) == old(self).cell(to.0));
        }
        self.open_wall(to.0, to.1);
        proof {
            let before = *old(self);
            let after = *self;
            assert forall|c: Coord, d: CircleMazeCellDirection|
                before.in_bounds(c) && before.cell(c).has_side(d) implies #[trigger] after.wall_open(
                c,
                d,
            ) == (before.wall_open(c, d) || (c == coord && d == dir) || (c == to.0 && d
                == to.1)) by {
                assert(middle.in_bounds(c));
                if c == coord {
                    assert(after.cell(c) == middle.cell(c));
                } else if c == to.0 {
                    assert(middle.cell(c) == before.cell(c));
                } else {
                    assert(after.cell(c) == middle.cell(c));
                    assert(middle.cell(c) == before.cell(c));
                }
            }
            assert forall|c: Coord|
                #[trigger] before.in_bounds(c) && c != coord && c != to.0 implies after.reached(c)
                == before.reached(c) by {
                assert(middle.in_bounds(c));
                assert(after.cell(c) == middle.cell(c));
                assert(middle.cell(c) == before.cell(c));
            }
            assert(after.cell(coord) == middle.cell(coord)) by {
                assert(middle.in_bounds(coord));
            }
            if before.walls_pair_up() {
                assert(after.walls_pair_up()) by {
                    reveal(CircleMaze::walls_pair_up);
                    assert forall|c: Coord, d: CircleMazeCellDirection|
                        after.has_neighbour(c, d) implies #[trigger] after.wall_open(c, d)
                        == after.wall_open(Self::neighbour_of(c, d), Self::opposite_of(c, d)) by {
                        let n = Self::neighbour_of(c, d);
                        let o = Self::opposite_of(c, d);
                        before.lemma_neighbour_back(c, d);
                        before.lemma_neighbour_back(coord, dir);
                        before.lemma_sides(c, d);
                        before.lemma_sides(n, o);
                        assert(before.wall_open(c, d) == before.wall_open(n, o));
                        assert(after.wall_open(n, o) == (before.wall_open(n, o) || (n == coord && o
                            == dir) || (n == to.0 && o == to.1)));
                    }
                }
            }
        }
    }

    /// Whether an adjacency query at `coord` with the filter `reach_type` hands out the
    /// side `dir`: the grid has a cell there, and the filter admits it.
    pub open spec fn offers(
        &self,
        coord: Coord,
        reach_type: CellReachType,
        dir: CircleMazeCellDirection,
    ) -> bool {
        &&& self.has_neighbour(coord, dir)
        &&& reach_type.admits(self.reached(Self::neighbour_of(coord, dir)))
    }

    /// The adjacency list up to the sides whose place in the order is below `bound`:
    /// it holds the sides that the query hands out, each once and in order, with
    /// the cell on that side.
    pub open spec fn listed_upto(
        &self,
        list: Seq<(CircleMazeCellDirection, Coord)>,
        coord: Coord,
        reach_type: CellReachType,
        bound: int,
    ) -> bool {
        &&& forall|i: int|
            0 <= i < list.len() ==> self.offers(coord, reach_type, (#[trigger] list[i]).0)
                && list[i].1 == Self::neighbour_of(coord, list[i].0) && side_order(list[i].0)
                < bound
        &&& forall|i: int, j: int|
            0 <= i < j < list.len() ==> side_order((#[trigger] list[i]).0) < side_order(
                (#[trigger] list[j]).0,
            )
        &&& forall|dir: CircleMazeCellDirection|
            self.offers(coord, reach_type, dir) && side_order(dir) < bound ==> exists|i: int|
                0 <= i < list.len() && (#[trigger] list[i]).0 == dir
    }

    /// Appends the side `dir` and the cell on that side to the list if the query
    /// hands that side out.
    fn consider(
        &self,
        list: &mut Vec<(CircleMazeCellDirection, Coord)>,
        coord: Coord,
        dir: CircleMazeCellDirection,
        reach_type: CellReachType,
    )
        requires
            self.wf(),
            self.has_neighbour(coord, dir),
            self.listed_upto(old(list)@, coord, reach_type, side_order(dir)),
        ensures
            self.listed_upto(final(list)@, coord, reach_type, side_order(dir) + 1),
    {
        let to = self.step(coord, dir);
        proof {
            assert(self.in_bounds(to.0));
            assert(self.cells@[to.0.y as int]@.len() == ring_size(to.0.y as nat));
        }
        let ghost before = list@;
        if reach_type.accepts(self.cell_at(to.0).reachable()) {
            list.push((dir, to.0));
            proof {
                assert(list@[before.len() as int].0 == dir);
                assert forall|i: int, j: int| 0 <= i < j < list@.len() implies side_order(
                    (#[trigger] list@[i]).0,
                ) < side_order((#[trigger] list@[j]).0) by {
                    assert(list@[i] == before[i]);
                }
                assert forall|d: CircleMazeCellDirection|
                    self.offers(coord, reach_type, d) && side_order(d) < side_order(dir)
                        + 1 implies exists|i: int|
                    0 <= i < list@.len() && (#[trigger] list@[i]).0 == d by {
                    if side_order(d) < side_order(dir) {
                        let i = choose|i: int| 0 <= i < before.len() && (#[trigger] before[i]).0 == d;
                        assert(list@[i].0 == d);
                    } else {
                        assert(d == dir);
                    }
                }
            }
        } else {
            proof {
                assert forall|d: CircleMazeCellDirection|
                    self.offers(coord, reach_type, d) && side_order(d) < side_order(dir)
                        + 1 implies exists|i: int|
                    0 <= i < list@.len() && (#[trigger] list@[i]).0 == d by {
                    if side_order(d) == side_order(dir) {
                        assert(d == dir);
                    }
                }
            }
        }
    }

    /// The neighbours of the cell at `coord` that the filter admits, each with the
    /// side on which it lies, in the order east, west, south, north.
    pub fn neighbours(&self, coord: Coord, reach_type: CellReachType) -> (list: Vec<
        (CircleMazeCellDirection, Coord),
    >)
        requires
            self.wf(),
            self.in_bounds(coord),
        ensures
            forall|i: int|
                0 <= i < list@.len() ==> self.offers(coord, reach_type, (#[trigger] list@[i]).0)
                    && list@[i].1 == Self::neighbour_of(coord, list@[i].0),
            forall|i: int, j: int|
                0 <= i < j < list@.len() ==> side_order((#[trigger] list@[i]).0) < side_order(
                    (#[trigger] list@[j]).0,
                ),
            forall|dir: CircleMazeCellDirection|
                self.offers(coord, reach_type, dir) ==> exists|i: int|
                    0 <= i < list@.len() && (#[trigger] list@[i]).0 == dir,
    {
        let mut list: Vec<(CircleMazeCellDirection, Coord)> = Vec::new();
        proof {
            assert(self.cell_fits(coord));
            assert(self.cells@[coord.y as int]@.len() == ring_size(coord.y as nat));
        }
        let has_default_paths = self.cell_at(coord).default_paths();
        let north_path_count = self.cell_at(coord).north_paths();
        if has_default_paths {
            self.consider(&mut list, coord, CircleMazeCellDirection::East, reach_type);
            self.consider(&mut list, coord, CircleMazeCellDirection::West, reach_type);
            self.consider(&mut list, coord, CircleMazeCellDirection::South, reach_type);
        }
        assert(self.listed_upto(list@, coord, reach_type, 3));
        if coord.y < self.height - 1 {
            let mut n: usize = 0;
            while n < north_path_count
                invariant
                    self.wf(),
                    self.in_bounds(coord),
                    coord.y + 1 < self.height,
                    north_path_count == north_paths(coord.y as nat, self.height as nat),
                    n <= north_path_count,
                    self.listed_upto(list@, coord, reach_type, 3 + n),
                decreases north_path_count - n,
            {
                self.consider(&mut list, coord, CircleMazeCellDirection::North(n), reach_type);
                n = n + 1;
            }
        }
        list
    }
}

/// The place of a side in the order east, west, south, north.
pub open spec fn side_order(dir: CircleMazeCellDirection) -> int {
    match dir {
        CircleMazeCellDirection::East => 0,
        CircleMazeCellDirection::West => 1,
        CircleMazeCellDirection::South => 2,
        CircleMazeCellDirection::North(n) => 3 + n,
    }
}

/// A cell as it is made for `ring`: in shape, with the walls of its ring, all of
/// them standing.
pub open spec fn fresh_cell(cell: CircleMazeCell, ring: nat, height: nat) -> bool {
    &&& cell.wf()
    &&& cell.has_defaults() == (ring != 0)
    &&& cell.norths() == north_paths(ring, height)
    &&& !cell.is_reachable()
    &&& forall|dir: CircleMazeCellDirection| cell.has_side(dir) ==> !#[trigger] cell.open_at(dir)
}

} // verus!
