use crate::maze::Maze;
use crate::maze_builder::{
    begin_growth, growth, lemma_growth_cell, lemma_growth_ends, lemma_growth_facts,
    lemma_growth_step, lemma_some_neighbour, lemma_stays_reached, remove_cell, MazeBuilder,
};
use crate::pair::Pair;
use crate::random::random_between;
use crate::util::{CellReachType, Coord};
use rand::rngs::StdRng;
use vstd::prelude::*;

verus! {

impl MazeBuilder {
    /// One step of the Aldous-Broder walk: from `current` to its neighbour with the
    /// number `pick`, counted in the order north, east, south, west. Where that
    /// neighbour had not been reached, the wall between the two is opened and the
    /// neighbour leaves `unreachable_cells`. Returns the neighbour.
    pub fn aldous_broder_step(
        maze: &mut Maze,
        unreachable_cells: &mut Vec<Coord>,
        current: Coord,
        pick: usize,
    ) -> (next_cell: Coord)
        requires
            old(maze).wf(),
            old(maze).in_bounds(current),
            old(unreachable_cells)@.no_duplicates(),
            pick < old(maze).neighbour_count(current),
        ensures
            final(maze).wf(),
            next_cell == old(maze).nth_neighbour(current, pick).1,
            old(maze).in_bounds(next_cell),
            old(maze).reached(next_cell) ==> *final(maze) == *old(maze)
                && final(unreachable_cells)@ == old(unreachable_cells)@,
            !old(maze).reached(next_cell) ==> old(maze).opened_between(
                final(maze),
                current,
                old(maze).nth_neighbour(current, pick).0,
            ) && final(unreachable_cells)@.no_duplicates() && (forall|c: Coord|
                final(unreachable_cells)@.contains(c) <==> old(unreachable_cells)@.contains(c) && c
                    != next_cell),
    {
        let neighbours = maze.neighbours(current, CellReachType::Anything);
        proof {
            maze.lemma_neighbours_listed(current, neighbours@);
        }
        let random_dir = neighbours[pick].0;
        let random_neighbour = neighbours[pick].1;
        proof {
            maze.lemma_neighbour_back(current, random_dir);
        }
        if !maze.cell_at(random_neighbour).reachable() {
            proof {
                // The neighbour has no open wall, so the wall towards it stands.
                maze.lemma_wall_symmetry(current, random_dir);
                assert(Pair { x: current.x, y: current.y } == current);
            }
            maze.connect_cells(current.x, current.y, random_dir);
            remove_cell(unreachable_cells, random_neighbour);
            proof {
                assert(Pair { x: current.x, y: current.y } == current);
            }
        }
        random_neighbour
    }

    /// Aldous-Broder: a random walk from `start` that opens the wall to every cell it
    /// enters for the first time. The walk ends when it has entered every cell, or
    /// after `max_steps` steps; the result says whether every cell was entered. With
    /// a limit of 0 no step is taken, and a grid of two or more cells stays as it is.
    pub fn aldous_broder_maze_creation(
        maze: &mut Maze,
        start: Coord,
        rng: &mut StdRng,
        max_steps: usize,
    ) -> (completed: bool)
        requires
            old(maze).wf(),
            old(maze).fully_walled(),
            old(maze).in_bounds(start),
        ensures
            final(maze).wf(),
            final(maze).width == old(maze).width,
            final(maze).height == old(maze).height,
            final(maze).enclosed(),
            final(maze).is_acyclic(),
            forall|c: Coord|
                final(maze).in_bounds(c) && #[trigger] final(maze).reached(c)
                    ==> final(maze).joined(start, c),
            completed == final(maze).is_perfect(),
            old(maze).width * old(maze).height == 1 ==> completed,
            max_steps == 0 && old(maze).width * old(maze).height >= 2 ==> !completed,
    {
        let mut unreachable_cells = begin_growth(maze, start);
        let ghost mut rank = Map::<Coord, nat>::empty().insert(start, 0);
        let ghost mut next: nat = 1;
        let mut current_cell = start;
        let mut steps: usize = 0;
        proof {
            if maze.width * maze.height == 1 && unreachable_cells@.len() > 0 {
                lemma_growth_facts(maze, rank, start, next, unreachable_cells@);
            }
        }
        while unreachable_cells.len() > 0 && steps < max_steps
            invariant
                maze.width == old(maze).width,
                maze.height == old(maze).height,
                growth(maze, rank, start, next, unreachable_cells@),
                maze.in_bounds(current_cell),
                rank.contains_key(current_cell),
                maze.reached(start) || (current_cell == start && forall|c: Coord|
                    #[trigger] rank.contains_key(c) ==> c == start),
                maze.width * maze.height == 1 ==> unreachable_cells@.len() == 0,
                steps <= max_steps,
                steps == 0 ==> unreachable_cells@.len() + 1 == maze.width * maze.height,
            decreases max_steps - steps,
        {
            let ghost before = *maze;
            let ghost listed = unreachable_cells@;
            proof {
                lemma_growth_facts(maze, rank, start, next, unreachable_cells@);
                let dir = lemma_some_neighbour(maze, current_cell);
                maze.lemma_neighbour_count(current_cell, dir);
            }
            let count = maze.count_neighbours(current_cell);
            let pick = random_between(rng, 0, count - 1);
            let ghost random_dir = maze.nth_neighbour(current_cell, pick).0;
            let random_neighbour = MazeBuilder::aldous_broder_step(
                maze,
                &mut unreachable_cells,
                current_cell,
                pick,
            );
            proof {
                before.lemma_nth_neighbour(current_cell, pick);
                before.lemma_neighbour_back(current_cell, random_dir);
                lemma_growth_cell(&before, rank, start, next, listed, random_neighbour);
                if !before.reached(random_neighbour) {
                    assert(!rank.contains_key(random_neighbour));
                    lemma_growth_step(
                        &before,
                        maze,
                        rank,
                        start,
                        next,
                        listed,
                        unreachable_cells@,
                        current_cell,
                        random_dir,
                        random_neighbour,
                    );
                    lemma_stays_reached(&before, maze, current_cell, random_dir, start);
                    rank = rank.insert(random_neighbour, next);
                    next = next + 1;
                }
            }
            current_cell = random_neighbour;
            steps = steps + 1;
        }
        proof {
            lemma_growth_ends(maze, rank, start, next, unreachable_cells@);
        }
        unreachable_cells.len() == 0
    }
}

} // verus!
