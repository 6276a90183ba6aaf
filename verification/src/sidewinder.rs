use crate::maze::{neighbour_of, Maze};
use crate::maze_builder::MazeBuilder;
use crate::pair::Pair;
use crate::random::random_between;
use crate::util::{Coord, EAST, NORTH, SOUTH, WEST};
use rand::rngs::StdRng;
use vstd::prelude::*;

verus! {

/// The cell to the east of `c`.
pub open spec fn east_of(c: Coord) -> Coord {
    Pair { x: (c.x + 1) as usize, y: c.y }
}

/// The cell to the west of `c`.
pub open spec fn west_of(c: Coord) -> Coord {
    Pair { x: (c.x - 1) as usize, y: c.y }
}

/// What the sidewinder leaves at a cell of a finished run. `runs` gives, for each
/// cell, the first and the last column of its run and the column of the cell that
/// is open towards the north. The cells of a run are linked east to west; the top
/// row is one run that ends in the corner and has no opening to the north.
pub open spec fn run_cell_ok(
    maze: &Maze,
    runs: spec_fn(Coord) -> (nat, nat, nat),
    c: Coord,
) -> bool {
    let first = runs(c).0;
    let last = runs(c).1;
    let anchor = runs(c).2;
    &&& first <= c.x <= last < maze.width
    &&& first <= anchor <= last
    &&& (c.y == 0 ==> first == 0 && last == maze.width - 1 && anchor == last)
    &&& maze.wall_open(c, NORTH) == (c.y > 0 && c.x == anchor)
    &&& maze.wall_open(c, EAST) == (c.x < last)
    &&& (c.x < last ==> runs(east_of(c)) == runs(c))
    &&& (c.x > first ==> runs(west_of(c)) == runs(c))
}

/// The state of the sidewinder before it turns to the cell (`x`, `y`): the runs of
/// the rows above and those of this row before the column `pending` are finished;
/// the cells from `pending` on are linked eastwards and wait for their opening to
/// the north; further cells have their north and east walls standing.
pub open spec fn sidewinder_upto(
    maze: &Maze,
    runs: spec_fn(Coord) -> (nat, nat, nat),
    y: usize,
    x: usize,
    pending: usize,
) -> bool {
    &&& maze.wf()
    &&& maze.enclosed()
    &&& pending <= x
    &&& forall|c: Coord| #[trigger]
        maze.in_bounds(c) ==> if c.y < y {
            run_cell_ok(maze, runs, c)
        } else if c.y == y && c.x < pending {
            run_cell_ok(maze, runs, c) && runs(c).1 < pending
        } else if c.y == y && c.x < x {
            !maze.wall_open(c, NORTH) && maze.wall_open(c, EAST)
        } else {
            !maze.wall_open(c, NORTH) && !maze.wall_open(c, EAST)
        }
}

/// The runs after the cells of row `y` from column `first` to column `last` have
/// become a run that is open to the north at column `anchor`.
pub open spec fn with_run(
    runs: spec_fn(Coord) -> (nat, nat, nat),
    y: usize,
    first: usize,
    last: usize,
    anchor: usize,
) -> spec_fn(Coord) -> (nat, nat, nat) {
    |c: Coord|
        if c.y == y && first <= c.x <= last {
            (first as nat, last as nat, anchor as nat)
        } else {
            runs(c)
        }
}

/// Linking the cell (`x`, `y`) to the east lets it wait with the run before it.
proof fn lemma_sidewinder_east(
    before: &Maze,
    after: &Maze,
    runs: spec_fn(Coord) -> (nat, nat, nat),
    y: usize,
    x: usize,
    pending: usize,
)
    requires
        sidewinder_upto(before, runs, y, x, pending),
        y < before.height,
        x + 1 < before.width,
        before.opened_between(after, Pair { x, y }, EAST),
    ensures
        sidewinder_upto(after, runs, y, (x + 1) as usize, pending),
{
    let here = Pair { x, y };
    before.lemma_neighbour_back(here, EAST);
    assert forall|c: Coord| #[trigger] after.in_bounds(c) implies if c.y < y {
        run_cell_ok(after, runs, c)
    } else if c.y == y && c.x < pending {
        run_cell_ok(after, runs, c) && runs(c).1 < pending
    } else if c.y == y && c.x < x + 1 {
        !after.wall_open(c, NORTH) && after.wall_open(c, EAST)
    } else {
        !after.wall_open(c, NORTH) && !after.wall_open(c, EAST)
    } by {
        assert(before.in_bounds(c));
    }
}

/// Opening the cell in column `anchor` to the north finishes the run that waits in
/// row `y` and ends at column `x`.
proof fn lemma_sidewinder_north(
    before: &Maze,
    after: &Maze,
    runs: spec_fn(Coord) -> (nat, nat, nat),
    y: usize,
    x: usize,
    pending: usize,
    anchor: usize,
)
    requires
        sidewinder_upto(before, runs, y, x, pending),
        0 < y < before.height,
        x < before.width,
        pending <= anchor <= x,
        before.opened_between(after, Pair { x: anchor, y }, NORTH),
    ensures
        sidewinder_upto(
            after,
            with_run(runs, y, pending, x, anchor),
            y,
            (x + 1) as usize,
            (x + 1) as usize,
        ),
{
    let here = Pair { x: anchor, y };
    let grown = with_run(runs, y, pending, x, anchor);
    before.lemma_neighbour_back(here, NORTH);
    assert forall|c: Coord| #[trigger] after.in_bounds(c) implies if c.y < y {
        run_cell_ok(after, grown, c)
    } else if c.y == y && c.x < x + 1 {
        run_cell_ok(after, grown, c) && grown(c).1 < x + 1
    } else {
        !after.wall_open(c, NORTH) && !after.wall_open(c, EAST)
    } by {
        assert(before.in_bounds(c));
        if c.y < y {
            assert(run_cell_ok(before, runs, c));
            if c.x < runs(c).1 {
                assert(before.in_bounds(east_of(c)));
            }
            if c.x > runs(c).0 {
                assert(before.in_bounds(west_of(c)));
            }
        } else if c.y == y && c.x < pending {
            assert(run_cell_ok(before, runs, c));
        } else if c.y == y && c.x < x + 1 {
            if c.x < x {
                assert(before.in_bounds(east_of(c)));
            }
        }
    }
}

/// At the end of the top row its cells, linked from west to east, are one run.
proof fn lemma_sidewinder_top(maze: &Maze, runs: spec_fn(Coord) -> (nat, nat, nat))
    requires
        maze.width >= 1,
        maze.height >= 1,
        sidewinder_upto(maze, runs, 0, (maze.width - 1) as usize, 0),
    ensures
        sidewinder_upto(
            maze,
            with_run(runs, 0, 0, (maze.width - 1) as usize, (maze.width - 1) as usize),
            0,
            maze.width,
            maze.width,
        ),
{
    let grown = with_run(runs, 0, 0, (maze.width - 1) as usize, (maze.width - 1) as usize);
    assert forall|c: Coord| #[trigger] maze.in_bounds(c) implies if c.y < 0 {
        run_cell_ok(maze, grown, c)
    } else if c.y == 0 && c.x < maze.width {
        run_cell_ok(maze, grown, c) && grown(c).1 < maze.width
    } else {
        !maze.wall_open(c, NORTH) && !maze.wall_open(c, EAST)
    } by {}
}

/// Between two rows nothing waits.
proof fn lemma_sidewinder_next_row(maze: &Maze, runs: spec_fn(Coord) -> (nat, nat, nat), y: usize)
    requires
        y < maze.height,
        sidewinder_upto(maze, runs, y, maze.width, maze.width),
    ensures
        sidewinder_upto(maze, runs, (y + 1) as usize, 0, 0),
{
    assert forall|c: Coord| #[trigger] maze.in_bounds(c) implies if c.y < y + 1 {
        run_cell_ok(maze, runs, c)
    } else {
        !maze.wall_open(c, NORTH) && !maze.wall_open(c, EAST)
    } by {}
}

/// The rank of a cell in a finished sidewinder maze: rows count from the top, and
/// within a run the cells count away from the one that is open to the north.
pub open spec fn run_rank(maze: &Maze, runs: spec_fn(Coord) -> (nat, nat, nat)) -> Map<Coord, nat> {
    Map::new(
        |c: Coord| maze.in_bounds(c),
        |c: Coord|
            (c.y * maze.width + if c.x < runs(c).2 {
                runs(c).2 - c.x
            } else {
                c.x - runs(c).2
            }) as nat,
    )
}

/// Cells of a lower row have a lower rank.
proof fn lemma_rows_rank(width: int, upper: int, lower: int, a: int, b: int)
    requires
        0 <= upper < lower,
        0 <= a < width,
        0 <= b,
    ensures
        upper * width + a < lower * width + b,
        upper * width >= 0,
{
    assert((upper + 1) * width <= lower * width) by (nonlinear_arith)
        requires
            upper + 1 <= lower,
            width >= 0,
    ;
    assert((upper + 1) * width == upper * width + width) by (nonlinear_arith);
    assert(upper * width >= 0) by (nonlinear_arith)
        requires
            upper >= 0,
            width >= 0,
    ;
}

/// A grid in which every run is finished is a perfect maze.
pub proof fn lemma_sidewinder_is_perfect(maze: &Maze, runs: spec_fn(Coord) -> (nat, nat, nat))
    requires
        maze.width >= 1,
        maze.height >= 1,
        sidewinder_upto(maze, runs, maze.height, 0, 0),
    ensures
        maze.is_perfect(),
{
    let rank = run_rank(maze, runs);
    let root = Pair { x: (maze.width - 1) as usize, y: 0usize };
    let w = maze.width as int;
    assert(maze.in_bounds(root));
    assert forall|c: Coord, dir: usize| #[trigger] maze.passage(c, dir) implies (rank[neighbour_of(
        c,
        dir,
    )] < rank[c]) == (if dir == NORTH {
        true
    } else if dir == EAST {
        c.x < runs(c).2
    } else if dir == SOUTH {
        false
    } else {
        c.x > runs(c).2
    }) && rank[neighbour_of(c, dir)] != rank[c] && maze.in_bounds(neighbour_of(c, dir)) by {
        let n = neighbour_of(c, dir);
        maze.lemma_neighbour_back(c, dir);
        maze.lemma_wall_symmetry(c, dir);
        assert(maze.in_bounds(c) && maze.in_bounds(n));
        assert(run_cell_ok(maze, runs, c));
        assert(run_cell_ok(maze, runs, n));
        assert(c.y * w >= 0) by (nonlinear_arith)
            requires
                c.y >= 0,
                w >= 0,
        ;
        if dir == NORTH {
            lemma_rows_rank(
                w,
                n.y as int,
                c.y as int,
                if n.x < runs(n).2 {
                    runs(n).2 - n.x
                } else {
                    n.x - runs(n).2
                },
                if c.x < runs(c).2 {
                    runs(c).2 - c.x
                } else {
                    c.x - runs(c).2
                },
            );
        } else if dir == SOUTH {
            lemma_rows_rank(
                w,
                c.y as int,
                n.y as int,
                if c.x < runs(c).2 {
                    runs(c).2 - c.x
                } else {
                    c.x - runs(c).2
                },
                if n.x < runs(n).2 {
                    runs(n).2 - n.x
                } else {
                    n.x - runs(n).2
                },
            );
        } else if dir == EAST {
            assert(n == east_of(c));
        } else {
            assert(n == west_of(c));
            assert(maze.wall_open(n, EAST));
            assert(east_of(n) == c);
        }
    }
    assert(maze.tree_on(rank, root)) by {
        reveal(Maze::tree_on);
        assert forall|c: Coord, dir: usize|
            maze.in_bounds(c) && dir < 4 && #[trigger] maze.wall_open(
                c,
                dir,
            ) implies maze.has_neighbour(c, dir) && rank.contains_key(c) && rank[c]
            != rank[neighbour_of(c, dir)] by {
            assert(maze.passage(c, dir));
        }
        assert forall|c: Coord| #[trigger] rank.contains_key(c) && c != root implies maze.has_parent(
            rank,
            c,
        ) by {
            assert(maze.in_bounds(c));
            assert(run_cell_ok(maze, runs, c));
            if c.x < runs(c).2 {
                assert(maze.passage(c, EAST));
                assert(maze.descends(rank, c, EAST));
            } else if c.x > runs(c).2 {
                let n = west_of(c);
                assert(maze.in_bounds(n));
                assert(run_cell_ok(maze, runs, n));
                assert(east_of(n) == c);
                maze.lemma_neighbour_back(n, EAST);
                maze.lemma_wall_symmetry(n, EAST);
                assert(maze.passage(c, WEST));
                assert(maze.descends(rank, c, WEST));
            } else {
                assert(c.y > 0);
                assert(maze.passage(c, NORTH));
                assert(maze.descends(rank, c, NORTH));
            }
        }
        assert forall|c: Coord, d1: usize, d2: usize|
            #[trigger] maze.descends(rank, c, d1) && #[trigger] maze.descends(
                rank,
                c,
                d2,
            ) implies d1 == d2 by {
            assert(maze.passage(c, d1) && maze.passage(c, d2));
            assert(run_cell_ok(maze, runs, c));
        }
        assert forall|dir: usize| !#[trigger] maze.descends(rank, root, dir) by {
            if maze.passage(root, dir) {
                assert(run_cell_ok(maze, runs, root));
            }
        }
    }
    maze.lemma_spanning_tree_is_perfect(rank, root);
}

/// Where the sidewinder opens a wall when it turns to the cell (`x`, `y`), if it
/// opens one: the cell and the side. The corner of the top row is passed over; the
/// rest of the top row is linked east; in the last column, and wherever the coin
/// shows 0, the run ends and the cell `offset` columns back is opened to the north;
/// elsewhere the cell is linked east.
pub open spec fn sidewinder_link(maze: &Maze, x: usize, y: usize, coin: usize, offset: usize) -> Option<
    (Coord, usize),
> {
    if y == 0 && x == maze.width - 1 {
        None
    } else if x == maze.width - 1 || (y > 0 && coin == 0) {
        Some((Pair { x: (x - offset) as usize, y }, NORTH))
    } else {
        Some((Pair { x, y }, EAST))
    }
}

/// The length of the run after the sidewinder has turned to the cell (`x`, `y`).
pub open spec fn sidewinder_run(
    maze: &Maze,
    x: usize,
    y: usize,
    run_length: usize,
    coin: usize,
) -> int {
    if y == 0 {
        run_length as int
    } else if x == maze.width - 1 || coin == 0 {
        0
    } else {
        run_length + 1
    }
}

/// The grid is a maze of the sidewinder kind: its rows are cut into runs of cells
/// linked east to west, the top row is one run, and every run below it has
/// exactly one cell that is open to the north.
pub open spec fn is_sidewinder(maze: &Maze) -> bool {
    exists|runs: spec_fn(Coord) -> (nat, nat, nat)|
        sidewinder_upto(maze, runs, maze.height, 0, 0)
}

impl MazeBuilder {
    /// What the sidewinder does at the cell (`x`, `y`), for a given coin and a given
    /// choice within the run. Returns the new length of the run.
    pub fn sidewinder_step(
        maze: &mut Maze,
        x: usize,
        y: usize,
        run_length: usize,
        coin: usize,
        offset: usize,
    ) -> (new_run_length: usize)
        requires
            old(maze).wf(),
            x < old(maze).width,
            y < old(maze).height,
            run_length <= x,
            offset <= run_length,
            match sidewinder_link(old(maze), x, y, coin, offset) {
                Some(link) => !old(maze).wall_open(link.0, link.1),
                None => true,
            },
        ensures
            new_run_length == sidewinder_run(old(maze), x, y, run_length, coin),
            match sidewinder_link(old(maze), x, y, coin, offset) {
                Some(link) => old(maze).opened_between(final(maze), link.0, link.1),
                None => *final(maze) == *old(maze),
            },
    {
        if y == 0 && x == maze.width - 1 {
            run_length
        } else if x == maze.width - 1 {
            // The run ends here: one of its cells is opened to the north.
            maze.connect_cells(x - offset, y, NORTH);
            if y == 0 {
                run_length
            } else {
                0
            }
        } else if y == 0 {
            maze.connect_cells(x, y, EAST);
            run_length
        } else if coin == 0 {
            maze.connect_cells(x - offset, y, NORTH);
            0
        } else {
            maze.connect_cells(x, y, EAST);
            run_length + 1
        }
    }

    /// The sidewinder: the top row becomes one corridor; in every other row the
    /// cells are linked eastwards into runs, a coin decides where a run ends, and
    /// one cell of each run, chosen at random, is opened to the north.
    pub fn sidewinder_maze_creation(maze: &mut Maze, rng: &mut StdRng)
        requires
            old(maze).wf(),
            old(maze).fully_walled(),
            old(maze).width >= 1,
            old(maze).height >= 1,
        ensures
            final(maze).wf(),
            final(maze).width == old(maze).width,
            final(maze).height == old(maze).height,
            final(maze).enclosed(),
            is_sidewinder(final(maze)),
            final(maze).is_perfect(),
            forall|x: usize|
                x + 1 < final(maze).width ==> #[trigger] final(maze).wall_open(
                    Pair { x, y: 0 },
                    EAST,
                ),
    {
        let mut run_length: usize;
        let ghost mut runs: spec_fn(Coord) -> (nat, nat, nat) = |c: Coord| (0nat, 0nat, 0nat);
        let mut y: usize = 0;
        while y < maze.height
            invariant
                maze.width == old(maze).width,
                maze.height == old(maze).height,
                maze.width >= 1,
                maze.height >= 1,
                y <= maze.height,
                sidewinder_upto(maze, runs, y, 0, 0),
            decreases maze.height - y,
        {
            run_length = 0;
            let mut x: usize = 0;
            let ghost mut pending: usize = 0;
            while x < maze.width
                invariant
                    maze.width == old(maze).width,
                    maze.height == old(maze).height,
                    maze.width >= 1,
                    y < maze.height,
                    x <= maze.width,
                    sidewinder_upto(maze, runs, y, x, pending),
                    y == 0 ==> run_length == 0 && (x < maze.width ==> pending == 0),
                    y > 0 ==> pending + run_length == x,
                    x == maze.width ==> pending == x,
                decreases maze.width - x,
            {
                let ghost before = *maze;
                let last_column = x == maze.width - 1;
                let coin = if y > 0 && !last_column {
                    random_between(rng, 0, 1)
                } else {
                    0
                };
                let run_rand_i = if y > 0 && (last_column || coin == 0) {
                    random_between(rng, 0, run_length)
                } else {
                    0
                };
                proof {
                    // The cells of the run that waits and the cell at hand have their
                    // north walls standing; the cell at hand has its east wall too.
                    assert(maze.in_bounds(Pair { x, y }));
                    assert(maze.in_bounds(Pair { x: (x - run_rand_i) as usize, y }));
                }
                run_length = MazeBuilder::sidewinder_step(maze, x, y, run_length, coin, run_rand_i);
                proof {
                    if y == 0 && last_column {
                        lemma_sidewinder_top(maze, runs);
                        runs = with_run(runs, 0, 0, x, x);
                        pending = (x + 1) as usize;
                    } else if y > 0 && (last_column || coin == 0) {
                        let anchor = (x - run_rand_i) as usize;
                        lemma_sidewinder_north(&before, maze, runs, y, x, pending, anchor);
                        runs = with_run(runs, y, pending, x, anchor);
                        pending = (x + 1) as usize;
                    } else {
                        lemma_sidewinder_east(&before, maze, runs, y, x, pending);
                    }
                }
                x = x + 1;
            }
            proof {
                lemma_sidewinder_next_row(maze, runs, y);
            }
            y = y + 1;
        }
        proof {
            lemma_sidewinder_is_perfect(maze, runs);
            assert forall|x: usize| x + 1 < maze.width implies #[trigger] maze.wall_open(
                Pair { x, y: 0 },
                EAST,
            ) by {
                let c = Pair { x, y: 0usize };
                assert(maze.in_bounds(c));
                assert(run_cell_ok(maze, runs, c));
            }
        }
    }
}

} // verus!
