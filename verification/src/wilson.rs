use crate::maze::{neighbour_of, Maze};
use crate::maze_builder::{
    begin_growth, carve, contains_cell, growth, lemma_growth_cell, lemma_growth_ends,
    lemma_growth_facts, lemma_growth_listed, lemma_some_neighbour, lemma_stays_reached,
    MazeBuilder,
};
use crate::random::random_between;
use crate::util::{opposite_dir, CellReachType, Coord};
use rand::rngs::StdRng;
use vstd::prelude::*;

verus! {

/// A loop-erased walk under way: `path` names no cell twice, each of its cells lies
/// next to the one before it, on the side that `origin_dirs` records, and none of
/// its cells before the last is part of the tree.
pub open spec fn walk_ok(
    maze: &Maze,
    rank: Map<Coord, nat>,
    path: Seq<Coord>,
    origin_dirs: Seq<usize>,
) -> bool {
    &&& path.len() >= 1
    &&& origin_dirs.len() + 1 == path.len()
    &&& path.no_duplicates()
    &&& forall|i: int| 0 <= i < path.len() ==> maze.in_bounds(#[trigger] path[i])
    &&& forall|i: int|
        0 <= i < origin_dirs.len() ==> (#[trigger] origin_dirs[i]) < 4 && maze.has_neighbour(
            path[i],
            origin_dirs[i],
        ) && neighbour_of(path[i], origin_dirs[i]) == path[i + 1]
    &&& forall|i: int| 0 <= i < path.len() - 1 ==> !rank.contains_key(#[trigger] path[i])
}

impl MazeBuilder {
    /// One step of a loop-erased random walk: from the last cell of `path` to its
    /// neighbour with the number `pick`, counted in the order north, east, south,
    /// west. Where the path holds that neighbour already, the loop is erased: the
    /// path is cut back to end there. Otherwise the neighbour is appended, with the
    /// side on which it was entered. Returns whether the walk has arrived at a
    /// reached cell.
    pub fn wilson_walk_step(
        maze: &Maze,
        path: &mut Vec<Coord>,
        origin_dirs: &mut Vec<usize>,
        pick: usize,
    ) -> (arrived: bool)
        requires
            maze.shaped(),
            old(path)@.len() >= 1,
            old(origin_dirs)@.len() + 1 == old(path)@.len(),
            maze.in_bounds(old(path)@.last()),
            pick < maze.neighbour_count(old(path)@.last()),
        ensures
            old(path)@.contains(maze.nth_neighbour(old(path)@.last(), pick).1) ==> !arrived
                && exists|k: int|
                0 <= k < old(path)@.len() && #[trigger] old(path)@[k] == maze.nth_neighbour(
                    old(path)@.last(),
                    pick,
                ).1 && final(path)@ == old(path)@.subrange(0, k + 1) && final(origin_dirs)@
                    == old(origin_dirs)@.subrange(0, k),
            !old(path)@.contains(maze.nth_neighbour(old(path)@.last(), pick).1) ==> final(path)@
                == old(path)@.push(maze.nth_neighbour(old(path)@.last(), pick).1)
                && final(origin_dirs)@ == old(origin_dirs)@.push(
                maze.nth_neighbour(old(path)@.last(), pick).0,
            ) && arrived == maze.reached(maze.nth_neighbour(old(path)@.last(), pick).1),
    {
        let current_cell = path[path.len() - 1];
        let neighbours = maze.neighbours(current_cell, CellReachType::Anything);
        proof {
            maze.lemma_neighbours_listed(current_cell, neighbours@);
            maze.lemma_nth_neighbour(current_cell, pick);
            maze.lemma_neighbour_back(current_cell, neighbours@[pick as int].0);
        }
        let random_neighbour_dir = neighbours[pick].0;
        let random_neighbour = neighbours[pick].1;
        if contains_cell(path, random_neighbour) {
            // Revert `path` until it ends at `random_neighbour`.
            while path[path.len() - 1] != random_neighbour
                invariant
                    1 <= path@.len() <= old(path)@.len(),
                    old(origin_dirs)@.len() + 1 == old(path)@.len(),
                    origin_dirs@.len() + 1 == path@.len(),
                    path@ == old(path)@.subrange(0, path@.len() as int),
                    origin_dirs@ == old(origin_dirs)@.subrange(0, origin_dirs@.len() as int),
                    path@.contains(random_neighbour),
                decreases path@.len(),
            {
                let ghost before = path@;
                path.pop();
                origin_dirs.pop();
                proof {
                    let k = choose|k: int| 0 <= k < before.len() && before[k] == random_neighbour;
                    assert(k < before.len() - 1);
                    assert(path@[k] == random_neighbour);
                    assert(path@ =~= old(path)@.subrange(0, path@.len() as int));
                    assert(origin_dirs@ =~= old(origin_dirs)@.subrange(
                        0,
                        origin_dirs@.len() as int,
                    ));
                }
            }
            proof {
                let k = path@.len() - 1;
                assert(old(path)@[k] == path@[k]);
            }
            false
        } else {
            path.push(random_neighbour);
            origin_dirs.push(random_neighbour_dir);
            maze.cell_at(random_neighbour).reachable()
        }
    }
}

/// A walk that has arrived at the tree is merged into it: from its far end
/// backwards, the wall between each cell and the one before it is opened.
fn merge_walk(
    maze: &mut Maze,
    unreachable_cells: &mut Vec<Coord>,
    path: &mut Vec<Coord>,
    origin_dirs: &mut Vec<usize>,
    Ghost(rank0): Ghost<Map<Coord, nat>>,
    Ghost(root): Ghost<Coord>,
    Ghost(next0): Ghost<nat>,
) -> (state: Ghost<(Map<Coord, nat>, nat)>)
    requires
        growth(old(maze), rank0, root, next0, old(unreachable_cells)@),
        walk_ok(old(maze), rank0, old(path)@, old(origin_dirs)@),
        rank0.contains_key(old(path)@.last()),
        old(maze).reached(root),
    ensures
        growth(final(maze), state@.0, root, state@.1, final(unreachable_cells)@),
        final(maze).width == old(maze).width,
        final(maze).height == old(maze).height,
        final(maze).reached(root),
        final(unreachable_cells)@.len() + old(path)@.len() == old(unreachable_cells)@.len() + 1,
{
    let ghost mut rank = rank0;
    let ghost mut next = next0;
    while path.len() > 1
        invariant
            maze.width == old(maze).width,
            maze.height == old(maze).height,
            growth(maze, rank, root, next, unreachable_cells@),
            walk_ok(maze, rank, path@, origin_dirs@),
            rank.contains_key(path@.last()),
            maze.reached(root),
            path@.len() <= old(path)@.len(),
            unreachable_cells@.len() + old(path)@.len() == old(unreachable_cells)@.len()
                + path@.len(),
        decreases path@.len(),
    {
        let ghost before = *maze;
        let ghost walk = path@;
        let ghost dirs = origin_dirs@;
        let coord_from = path.pop().unwrap();
        let origin_dir = origin_dirs.pop().unwrap();
        let coord_to = path[path.len() - 1];
        proof {
            let k = dirs.len() - 1;
            assert(dirs[k] < 4 && before.has_neighbour(walk[k], dirs[k]) && neighbour_of(
                walk[k],
                dirs[k],
            ) == walk[k + 1]);
            assert(before.in_bounds(walk[k]));
            before.lemma_neighbour_back(walk[k], dirs[k]);
            assert(!rank.contains_key(walk[k]));
            lemma_growth_facts(maze, rank, root, next, unreachable_cells@);
        }
        let dir_to = opposite_dir(origin_dir);
        carve(
            maze,
            unreachable_cells,
            coord_from,
            dir_to,
            coord_to,
            Ghost(rank),
            Ghost(root),
            Ghost(next),
        );
        proof {
            lemma_stays_reached(&before, maze, coord_from, dir_to, root);
            let grown = rank.insert(coord_to, next);
            assert(path@ =~= walk.subrange(0, walk.len() - 1));
            assert(origin_dirs@ =~= dirs.subrange(0, dirs.len() - 1));
            assert forall|i: int| 0 <= i < path@.len() - 1 implies !grown.contains_key(
                #[trigger] path@[i],
            ) by {
                assert(!rank.contains_key(walk[i]));
                assert(walk[i] != walk[walk.len() - 2]);
            }
            assert forall|i: int| 0 <= i < origin_dirs@.len() implies (#[trigger] origin_dirs@[i])
                < 4 && maze.has_neighbour(path@[i], origin_dirs@[i]) && neighbour_of(
                path@[i],
                origin_dirs@[i],
            ) == path@[i + 1] by {
                assert(dirs[i] < 4 && before.has_neighbour(walk[i], dirs[i]) && neighbour_of(
                    walk[i],
                    dirs[i],
                ) == walk[i + 1]);
            }
            assert forall|i: int| 0 <= i < path@.len() implies maze.in_bounds(
                #[trigger] path@[i],
            ) by {
                assert(before.in_bounds(walk[i]));
            }
            rank = grown;
            next = next + 1;
        }
    }
    Ghost((rank, next))
}

/// What one step does to a loop-erased walk that has not arrived yet.
proof fn lemma_walk_step(
    maze: &Maze,
    rank: Map<Coord, nat>,
    path: Seq<Coord>,
    origin_dirs: Seq<usize>,
    pick: usize,
    after: Seq<Coord>,
    dirs_after: Seq<usize>,
)
    requires
        maze.wf(),
        walk_ok(maze, rank, path, origin_dirs),
        !rank.contains_key(path.last()),
        pick < maze.neighbour_count(path.last()),
        path.contains(maze.nth_neighbour(path.last(), pick).1) ==> exists|k: int|
            0 <= k < path.len() && #[trigger] path[k] == maze.nth_neighbour(path.last(), pick).1
                && after == path.subrange(0, k + 1) && dirs_after == origin_dirs.subrange(0, k),
        !path.contains(maze.nth_neighbour(path.last(), pick).1) ==> after == path.push(
            maze.nth_neighbour(path.last(), pick).1,
        ) && dirs_after == origin_dirs.push(maze.nth_neighbour(path.last(), pick).0),
    ensures
        walk_ok(maze, rank, after, dirs_after),
        maze.in_bounds(after.last()),
        path.contains(maze.nth_neighbour(path.last(), pick).1) ==> !rank.contains_key(after.last()),
        after.last() == maze.nth_neighbour(path.last(), pick).1,
        after[0] == path[0],
{
    let last = path.last();
    let nb = maze.nth_neighbour(last, pick).1;
    let dir = maze.nth_neighbour(last, pick).0;
    assert(maze.in_bounds(path[path.len() - 1]));
    maze.lemma_nth_neighbour(last, pick);
    maze.lemma_neighbour_back(last, dir);
    if path.contains(nb) {
        let k = choose|k: int|
            0 <= k < path.len() && #[trigger] path[k] == nb && after == path.subrange(0, k + 1)
                && dirs_after == origin_dirs.subrange(0, k);
        assert forall|i: int| 0 <= i < dirs_after.len() implies (#[trigger] dirs_after[i]) < 4
            && maze.has_neighbour(after[i], dirs_after[i]) && neighbour_of(
            after[i],
            dirs_after[i],
        ) == after[i + 1] by {
            assert(origin_dirs[i] < 4 && maze.has_neighbour(path[i], origin_dirs[i])
                && neighbour_of(path[i], origin_dirs[i]) == path[i + 1]);
        }
        assert forall|i: int| 0 <= i < after.len() implies maze.in_bounds(#[trigger] after[i]) by {
            assert(maze.in_bounds(path[i]));
        }
        assert forall|i: int| 0 <= i < after.len() - 1 implies !rank.contains_key(
            #[trigger] after[i],
        ) by {
            assert(!rank.contains_key(path[i]));
        }
        assert(after.last() == path[k]);
        if k < path.len() - 1 {
            assert(!rank.contains_key(path[k]));
        }
    } else {
        assert forall|i: int, j: int|
            0 <= i < after.len() && 0 <= j < after.len() && i != j implies after[i] != after[j] by {
            if i < path.len() && j < path.len() {
            } else if i < path.len() {
                assert(path.contains(path[i]));
            } else {
                assert(path.contains(path[j]));
            }
        }
        assert forall|i: int| 0 <= i < dirs_after.len() implies (#[trigger] dirs_after[i]) < 4
            && maze.has_neighbour(after[i], dirs_after[i]) && neighbour_of(
            after[i],
            dirs_after[i],
        ) == after[i + 1] by {
            if i < origin_dirs.len() {
                assert(origin_dirs[i] < 4 && maze.has_neighbour(path[i], origin_dirs[i])
                    && neighbour_of(path[i], origin_dirs[i]) == path[i + 1]);
            }
        }
        assert forall|i: int| 0 <= i < after.len() implies maze.in_bounds(#[trigger] after[i]) by {
            if i < path.len() {
                assert(maze.in_bounds(path[i]));
            }
        }
        assert forall|i: int| 0 <= i < after.len() - 1 implies !rank.contains_key(
            #[trigger] after[i],
        ) by {
            if i < path.len() - 1 {
                assert(!rank.contains_key(path[i]));
            }
        }
    }
}

impl MazeBuilder {
    /// Wilson's algorithm. `start` is marked as reached. Then, as long as cells are
    /// left, a loop-erased random walk begins at an unreached cell chosen at random
    /// and runs until it arrives at a reached cell; the walk is then carved into the
    /// grid. All walks together take at most `max_steps` steps: a walk that the
    /// limit cuts short is dropped. The result says whether every cell was reached;
    /// with a limit of 0 a grid of two or more cells is never finished.
    pub fn wilson_maze_creation(
        maze: &mut Maze,
        start: Coord,
        rng: &mut StdRng,
        max_steps: usize,
    ) -> (completed: bool)
        requires
            old(maze).wf(),
            old(maze).fully_walled(),
            old(maze).in_bounds(start),
        ensures
            final(maze).wf(),
            final(maze).width == old(maze).width,
            final(maze).height == old(maze).height,
            final(maze).enclosed(),
            final(maze).is_acyclic(),
            final(maze).reached(start),
            forall|c: Coord|
                final(maze).in_bounds(c) && #[trigger] final(maze).reached(c)
                    ==> final(maze).joined(start, c),
            completed == final(maze).is_perfect(),
            old(maze).width * old(maze).height == 1 ==> completed,
            max_steps == 0 && old(maze).width * old(maze).height >= 2 ==> !completed,
    {
        maze.mark_reached(start);
        proof {
            assert forall|c: Coord| maze.in_bounds(c) && #[trigger] maze.marked_at(c) implies c
                == start by {
                assert(old(maze).in_bounds(c));
            }
            assert(old(maze).in_bounds(start));
        }
        let mut unreachable_cells = begin_growth(maze, start);
        let ghost mut rank = Map::<Coord, nat>::empty().insert(start, 0);
        let ghost mut next: nat = 1;
        let mut steps: usize = 0;
        let mut out_of_steps = false;
        proof {
            if maze.width * maze.height == 1 && unreachable_cells@.len() > 0 {
                lemma_growth_facts(maze, rank, start, next, unreachable_cells@);
            }
        }
        while unreachable_cells.len() > 0 && !out_of_steps
            invariant
                maze.width == old(maze).width,
                maze.height == old(maze).height,
                growth(maze, rank, start, next, unreachable_cells@),
                maze.reached(start),
                maze.in_bounds(start),
                steps <= max_steps,
                out_of_steps ==> unreachable_cells@.len() > 0,
                maze.width * maze.height == 1 ==> unreachable_cells@.len() == 0,
                steps == 0 ==> unreachable_cells@.len() + 1 == maze.width * maze.height,
            decreases unreachable_cells@.len() + if out_of_steps { 0int } else { 1int },
        {
            let mut path: Vec<Coord> = Vec::new();
            // `origin_dirs` follows `path` from its second cell on: the first cell
            // was not entered from anywhere.
            let mut origin_dirs: Vec<usize> = Vec::new();
            let random_unreachable_cell_index = random_between(
                rng,
                0,
                unreachable_cells.len() - 1,
            );
            let first_cell = unreachable_cells[random_unreachable_cell_index];
            path.push(first_cell);
            let mut arrived = false;
            proof {
                lemma_growth_listed(
                    maze,
                    rank,
                    start,
                    next,
                    unreachable_cells@,
                    random_unreachable_cell_index as int,
                );
                lemma_growth_facts(maze, rank, start, next, unreachable_cells@);
            }
            while !arrived && steps < max_steps
                invariant
                    growth(maze, rank, start, next, unreachable_cells@),
                    unreachable_cells@.len() > 0,
                    maze.wf(),
                    maze.width * maze.height >= 2,
                    walk_ok(maze, rank, path@, origin_dirs@),
                    !rank.contains_key(path@[0]),
                    arrived == rank.contains_key(path@.last()),
                    arrived ==> steps > 0,
                    maze.reached(start),
                    maze.in_bounds(start),
                    steps <= max_steps,
                decreases max_steps - steps,
            {
                let current_cell = path[path.len() - 1];
                let ghost walk = path@;
                let ghost dirs = origin_dirs@;
                proof {
                    assert(maze.in_bounds(walk[walk.len() - 1]));
                    let dir = lemma_some_neighbour(maze, current_cell);
                    maze.lemma_neighbour_count(current_cell, dir);
                }
                let count = maze.count_neighbours(current_cell);
                let random_neighbour_index = random_between(rng, 0, count - 1);
                arrived = MazeBuilder::wilson_walk_step(
                    maze,
                    &mut path,
                    &mut origin_dirs,
                    random_neighbour_index,
                );
                proof {
                    lemma_walk_step(
                        maze,
                        rank,
                        walk,
                        dirs,
                        random_neighbour_index,
                        path@,
                        origin_dirs@,
                    );
                    lemma_growth_cell(maze, rank, start, next, unreachable_cells@, path@.last());
                }
                steps = steps + 1;
            }
            if arrived {
                let ghost walk_len = path@.len();
                let state = merge_walk(
                    maze,
                    &mut unreachable_cells,
                    &mut path,
                    &mut origin_dirs,
                    Ghost(rank),
                    Ghost(start),
                    Ghost(next),
                );
                proof {
                    rank = state@.0;
                    next = state@.1;
                    assert(walk_len >= 2);
                    if maze.width * maze.height == 1 && unreachable_cells@.len() > 0 {
                        lemma_growth_facts(maze, rank, start, next, unreachable_cells@);
                    }
                }
            } else {
                out_of_steps = true;
            }
        }
        proof {
            lemma_growth_ends(maze, rank, start, next, unreachable_cells@);
        }
        unreachable_cells.len() == 0
    }
}

} // verus!
