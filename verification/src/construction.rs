use crate::circle_maze::CircleMaze;
use crate::maze::Maze;
use crate::maze_builder::MazeBuilder;
use crate::util::Coord;
use rand::rngs::StdRng;
use vstd::prelude::*;

verus! {

/// The carving algorithms for rectangular grids.
#[derive(Debug, Clone, Copy, PartialEq, Eq, Structural)]
pub enum Algorithm {
    BinaryTree,
    Sidewinder,
    GrowingTree,
    AldousBroder,
    Wilson,
}

impl Algorithm {
    /// Whether the algorithm is a random walk, which may run out of steps.
    pub open spec fn walks(self) -> bool {
        self == Algorithm::AldousBroder || self == Algorithm::Wilson
    }
}

/// Whether a rectangular grid of this size can be made and has the cell `start`.
pub open spec fn can_make(width: usize, height: usize, start: Coord) -> bool {
    &&& start.x < width
    &&& start.y < height
    &&& width * height <= usize::MAX
}

impl MazeBuilder {
    /// Makes a grid of `width` by `height` cells in which every wall stands and
    /// carves it with `algorithm`, from `start` where the algorithm has a start.
    /// The random walks take at most `max_steps` steps. Returns nothing where the
    /// grid cannot be made or does not hold `start`, or where a random walk ran
    /// out of steps.
    pub fn create(
        width: usize,
        height: usize,
        start: Coord,
        algorithm: Algorithm,
        rng: &mut StdRng,
        max_steps: usize,
    ) -> (made: Option<Maze>)
        ensures
            made.is_some() ==> made.unwrap().wf() && made.unwrap().width == width
                && made.unwrap().height == height && made.unwrap().enclosed()
                && made.unwrap().is_perfect(),
            !can_make(width, height, start) ==> made.is_none(),
            can_make(width, height, start) && (!algorithm.walks() || width * height == 1)
                ==> made.is_some(),
            algorithm.walks() && max_steps == 0 && width * height >= 2 ==> made.is_none(),
    {
        if start.x >= width || start.y >= height {
            return None;
        }
        if height > usize::MAX / width {
            proof {
                assert(width * height > usize::MAX) by (nonlinear_arith)
                    requires
                        height > usize::MAX / width,
                        width >= 1,
                ;
            }
            return None;
        }
        proof {
            assert(width * height <= usize::MAX) by (nonlinear_arith)
                requires
                    height <= usize::MAX / width,
                    width >= 1,
            ;
        }
        let mut maze = Maze::new_full(width, height);
        let completed = match algorithm {
            Algorithm::BinaryTree => {
                MazeBuilder::binary_tree_maze_creation(&mut maze, rng);
                true
            },
            Algorithm::Sidewinder => {
                MazeBuilder::sidewinder_maze_creation(&mut maze, rng);
                true
            },
            Algorithm::GrowingTree => {
                MazeBuilder::random_maze_creation(&mut maze, start, rng);
                true
            },
            Algorithm::AldousBroder => MazeBuilder::aldous_broder_maze_creation(
                &mut maze,
                start,
                rng,
                max_steps,
            ),
            Algorithm::Wilson => MazeBuilder::wilson_maze_creation(&mut maze, start, rng, max_steps),
        };
        if completed {
            Some(maze)
        } else {
            None
        }
    }

    /// Makes a grid of `height` rings in which every wall stands and carves it with
    /// the growing tree from `start`. Returns nothing where the grid cannot be made
    /// or does not hold `start`.
    pub fn create_circle(height: usize, start: Coord, rng: &mut StdRng) -> (made: Option<
        CircleMaze,
    >)
        ensures
            made.is_some() ==> made.unwrap().sound() && made.unwrap().height == height
                && made.unwrap().is_perfect(),
            made.is_some() <==> height <= usize::MAX / 16 && start.y < height && start.x
                < crate::circle_maze::ring_size(start.y as nat),
    {
        if height > usize::MAX / 16 || start.y >= height {
            return None;
        }
        let mut maze = CircleMaze::new(height);
        if start.x >= maze.cells[start.y].len() {
            return None;
        }
        MazeBuilder::random_circle_maze_creation(&mut maze, start, rng);
        Some(maze)
    }
}

} // verus!
