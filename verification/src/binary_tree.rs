use crate::maze::{neighbour_of, Maze};
use crate::maze_builder::MazeBuilder;
use crate::pair::Pair;
use crate::random::random_between;
use crate::util::{Coord, EAST, NORTH};
use rand::rngs::StdRng;
use vstd::prelude::*;

verus! {

/// The side on which the binary-tree algorithm opens the cell `c`: east in the top
/// row, north in the last column, and elsewhere north or east as the coin says.
pub open spec fn binary_tree_side(maze: &Maze, c: Coord, coin: usize) -> usize {
    if c.y == 0 {
        EAST
    } else if c.x == maze.width - 1 {
        NORTH
    } else {
        coin
    }
}

/// What the binary-tree algorithm leaves at the cell `c`: of its north and east
/// walls exactly one is open, the east one in the top row and the north one in the
/// last column; the cell in the top right corner keeps both.
pub open spec fn binary_tree_cell(maze: &Maze, c: Coord) -> bool {
    let north = maze.wall_open(c, NORTH);
    let east = maze.wall_open(c, EAST);
    if c.y == 0 && c.x == maze.width - 1 {
        !north && !east
    } else if c.y == 0 {
        east && !north
    } else if c.x == maze.width - 1 {
        north && !east
    } else {
        north != east
    }
}

/// The grid is a maze of the binary-tree kind.
pub open spec fn is_binary_tree(maze: &Maze) -> bool {
    &&& maze.wf()
    &&& maze.enclosed()
    &&& forall|c: Coord| #[trigger] maze.in_bounds(c) ==> binary_tree_cell(maze, c)
}

/// The state of the binary-tree algorithm before it turns to the cell (`x`, `y`):
/// the cells before it, row by row, are done, the others have their north and east
/// walls standing.
pub open spec fn binary_tree_upto(maze: &Maze, x: usize, y: usize) -> bool {
    &&& maze.wf()
    &&& maze.enclosed()
    &&& forall|c: Coord| #[trigger]
        maze.in_bounds(c) ==> if c.y < y || (c.y == y && c.x < x) {
            binary_tree_cell(maze, c)
        } else {
            !maze.wall_open(c, NORTH) && !maze.wall_open(c, EAST)
        }
}

/// The distance to the top right corner, walking east and north only.
pub open spec fn corner_rank(maze: &Maze) -> Map<Coord, nat> {
    Map::new(|c: Coord| maze.in_bounds(c), |c: Coord| (maze.width - 1 - c.x + c.y) as nat)
}

/// A maze of the binary-tree kind is perfect: every passage north or east leads one
/// step closer to the top right corner.
pub proof fn lemma_binary_tree_is_perfect(maze: &Maze)
    requires
        is_binary_tree(maze),
        maze.width >= 1,
        maze.height >= 1,
    ensures
        maze.is_perfect(),
{
    let rank = corner_rank(maze);
    let root = Pair { x: (maze.width - 1) as usize, y: 0usize };
    assert(maze.tree_on(rank, root)) by {
        reveal(Maze::tree_on);
        assert(maze.in_bounds(root));
        assert forall|c: Coord, dir: usize|
            maze.in_bounds(c) && dir < 4 && #[trigger] maze.wall_open(
                c,
                dir,
            ) implies maze.has_neighbour(c, dir) && rank.contains_key(c) && rank[c]
            != rank[neighbour_of(c, dir)] by {
            maze.lemma_neighbour_back(c, dir);
        }
        assert forall|c: Coord| #[trigger] rank.contains_key(c) && c != root implies maze.has_parent(
            rank,
            c,
        ) by {
            assert(binary_tree_cell(maze, c));
            if maze.wall_open(c, NORTH) {
                maze.lemma_neighbour_back(c, NORTH);
                assert(maze.descends(rank, c, NORTH));
            } else {
                assert(maze.wall_open(c, EAST));
                maze.lemma_neighbour_back(c, EAST);
                assert(maze.descends(rank, c, EAST));
            }
        }
        assert forall|c: Coord, d1: usize, d2: usize|
            #[trigger] maze.descends(rank, c, d1) && #[trigger] maze.descends(
                rank,
                c,
                d2,
            ) implies d1 == d2 by {
            assert(binary_tree_cell(maze, c));
            maze.lemma_neighbour_back(c, d1);
            maze.lemma_neighbour_back(c, d2);
        }
        assert forall|dir: usize| !#[trigger] maze.descends(rank, root, dir) by {
            if maze.passage(root, dir) {
                maze.lemma_neighbour_back(root, dir);
            }
        }
    }
    maze.lemma_spanning_tree_is_perfect(rank, root);
}

impl MazeBuilder {
    /// What the binary-tree algorithm does at the cell (`x`, `y`): it opens the wall
    /// on the side that [`binary_tree_side`] names for the coin.
    pub fn binary_tree_step(maze: &mut Maze, x: usize, y: usize, coin: usize)
        requires
            old(maze).wf(),
            x < old(maze).width,
            y < old(maze).height,
            !(y == 0 && x == old(maze).width - 1),
            coin <= 1,
            !old(maze).wall_open(Pair { x, y }, binary_tree_side(old(maze), Pair { x, y }, coin)),
        ensures
            old(maze).opened_between(
                final(maze),
                Pair { x, y },
                binary_tree_side(old(maze), Pair { x, y }, coin),
            ),
            old(maze).has_neighbour(Pair { x, y }, binary_tree_side(old(maze), Pair { x, y }, coin)),
    {
        let dir = if y == 0 {
            EAST
        } else if x == maze.width - 1 {
            NORTH
        } else {
            coin
        };
        maze.connect_cells(x, y, dir);
    }

    /// The binary-tree algorithm: row by row, every cell but the one in the top
    /// right corner is opened towards the east in the top row, towards the north
    /// in the last column, and elsewhere towards north or east as a coin falls.
    pub fn binary_tree_maze_creation(maze: &mut Maze, rng: &mut StdRng)
        requires
            old(maze).wf(),
            old(maze).fully_walled(),
            old(maze).width >= 1,
            old(maze).height >= 1,
        ensures
            final(maze).width == old(maze).width,
            final(maze).height == old(maze).height,
            is_binary_tree(final(maze)),
            final(maze).is_perfect(),
            forall|c: Coord| #[trigger]
                old(maze).in_bounds(c) ==> final(maze).marked_at(c) == old(maze).marked_at(c),
    {
        let mut y: usize = 0;
        while y < maze.height
            invariant
                maze.width == old(maze).width,
                maze.height == old(maze).height,
                maze.width >= 1,
                y <= maze.height,
                binary_tree_upto(maze, 0, y),
                forall|c: Coord| #[trigger]
                    old(maze).in_bounds(c) ==> maze.marked_at(c) == old(maze).marked_at(c),
            decreases maze.height - y,
        {
            let mut x: usize = 0;
            while x < maze.width
                invariant
                    maze.width == old(maze).width,
                    maze.height == old(maze).height,
                    maze.width >= 1,
                    y < maze.height,
                    x <= maze.width,
                    binary_tree_upto(maze, x, y),
                    forall|c: Coord| #[trigger]
                        old(maze).in_bounds(c) ==> maze.marked_at(c) == old(maze).marked_at(c),
                decreases maze.width - x,
            {
                let ghost before = *maze;
                if y == 0 && x == maze.width - 1 {
                } else {
                    let coin = if y == 0 || x == maze.width - 1 {
                        0
                    } else {
                        random_between(rng, 0, 1)
                    };
                    proof {
                        assert(maze.in_bounds(Pair { x, y }));
                    }
                    MazeBuilder::binary_tree_step(maze, x, y, coin);
                    proof {
                        let here = Pair { x, y };
                        let dir = binary_tree_side(&before, here, coin);
                        before.lemma_neighbour_back(here, dir);
                        assert forall|c: Coord| #[trigger] maze.in_bounds(c) implies if c.y < y || (
                        c.y == y && c.x < x + 1) {
                            binary_tree_cell(maze, c)
                        } else {
                            !maze.wall_open(c, NORTH) && !maze.wall_open(c, EAST)
                        } by {
                            assert(before.in_bounds(c));
                        }
                        assert forall|c: Coord| #[trigger] old(maze).in_bounds(c) implies maze.marked_at(
                            c,
                        ) == old(maze).marked_at(c) by {
                            assert(before.in_bounds(c));
                        }
                    }
                }
                x = x + 1;
            }
            y = y + 1;
        }
        proof {
            lemma_binary_tree_is_perfect(maze);
        }
    }
}

} // verus!
