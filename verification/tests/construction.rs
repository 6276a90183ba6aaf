use mazey::construction::Algorithm;
use mazey::maze::Maze;
use mazey::maze_builder::MazeBuilder;
use mazey::pair::Pair;
use mazey::solver::Solver;
use mazey::util::{EAST, SOUTH};
use rand::rngs::StdRng;
use rand::SeedableRng;

fn passages(maze: &Maze) -> usize {
    let mut count = 0;
    for y in 0..maze.height {
        for x in 0..maze.width {
            for dir in [EAST, SOUTH] {
                let here = Pair::new(x, y);
                if maze.neighbour(here, dir).is_some() && maze.is_open(here, dir) {
                    count += 1;
                }
            }
        }
    }
    count
}

const ALL: [Algorithm; 5] = [
    Algorithm::BinaryTree,
    Algorithm::Sidewinder,
    Algorithm::GrowingTree,
    Algorithm::AldousBroder,
    Algorithm::Wilson,
];

#[test]
fn create_carves_with_every_algorithm() {
    for algorithm in ALL {
        let mut rng = StdRng::seed_from_u64(17);
        let maze = MazeBuilder::create(6, 4, Pair::new(1, 2), algorithm, &mut rng, 1_000_000)
            .unwrap();
        assert_eq!(maze.width, 6);
        assert_eq!(maze.height, 4);
        assert_eq!(passages(&maze), 23);
        let (_, map) = Solver::build_distance_map(&maze, Pair::new(1, 2));
        assert!(map.iter().flatten().all(|d| *d != -1));
    }
}

#[test]
fn create_turns_malformed_grids_down() {
    for algorithm in ALL {
        let mut rng = StdRng::seed_from_u64(1);
        assert!(MazeBuilder::create(0, 4, Pair::new(0, 0), algorithm, &mut rng, 100).is_none());
        assert!(MazeBuilder::create(4, 0, Pair::new(0, 0), algorithm, &mut rng, 100).is_none());
        assert!(MazeBuilder::create(0, 0, Pair::new(0, 0), algorithm, &mut rng, 100).is_none());
        assert!(MazeBuilder::create(3, 3, Pair::new(3, 0), algorithm, &mut rng, 100).is_none());
        assert!(MazeBuilder::create(3, 3, Pair::new(0, 3), algorithm, &mut rng, 100).is_none());
        assert!(
            MazeBuilder::create(usize::MAX, 2, Pair::new(0, 0), algorithm, &mut rng, 100).is_none()
        );
        assert!(MazeBuilder::create(1, 1, Pair::new(0, 0), algorithm, &mut rng, 0).is_some());
    }
}

#[test]
fn create_reports_walks_that_run_out_of_steps() {
    let mut rng = StdRng::seed_from_u64(1);
    let start = Pair::new(0, 0);
    assert!(MazeBuilder::create(5, 5, start, Algorithm::AldousBroder, &mut rng, 5).is_none());
    assert!(MazeBuilder::create(5, 5, start, Algorithm::Wilson, &mut rng, 5).is_none());
    assert!(MazeBuilder::create(5, 5, start, Algorithm::BinaryTree, &mut rng, 0).is_some());
    assert!(MazeBuilder::create(5, 5, start, Algorithm::Sidewinder, &mut rng, 0).is_some());
    assert!(MazeBuilder::create(5, 5, start, Algorithm::GrowingTree, &mut rng, 0).is_some());
}

#[test]
fn create_circle_carves_rings() {
    let mut rng = StdRng::seed_from_u64(23);
    let maze = MazeBuilder::create_circle(6, Pair::new(3, 2), &mut rng).unwrap();
    assert_eq!(maze.height, 6);
    let (_, map) = Solver::build_distance_map_for_circle_maze(&maze, Pair::new(3, 2));
    assert!(map.iter().flatten().all(|d| *d != -1));
    assert!(MazeBuilder::create_circle(0, Pair::new(0, 0), &mut rng).is_none());
    assert!(MazeBuilder::create_circle(3, Pair::new(0, 3), &mut rng).is_none());
    assert!(MazeBuilder::create_circle(3, Pair::new(6, 1), &mut rng).is_none());
    assert!(MazeBuilder::create_circle(3, Pair::new(1, 0), &mut rng).is_none());
    assert!(MazeBuilder::create_circle(1, Pair::new(0, 0), &mut rng).is_some());
    assert!(MazeBuilder::create_circle(usize::MAX, Pair::new(0, 0), &mut rng).is_none());
}
