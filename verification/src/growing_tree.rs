use crate::maze::{neighbour_of, Maze};
use crate::maze_builder::{
    begin_growth, carve, growth, lemma_frontier, lemma_growth_cell, lemma_growth_ends,
    lemma_growth_facts, lemma_growth_listed, lemma_growth_ranked, lemma_some_neighbour,
    lemma_stays_reached, remove_cell, MazeBuilder,
};
use crate::pair::Pair;
use crate::random::{lemma_reordered, random_between, shuffle_entries};
use crate::tree::{is_leaf, joins, with_leaves};
use crate::util::{opposite, CellReachType, Coord, EAST, NORTH, SOUTH, WEST};
use rand::rngs::StdRng;
use std::collections::VecDeque;
use vstd::prelude::*;

verus! {

/// What the growing-tree algorithm keeps true of its root: it has been reached, or
/// it is the only cell of the tree and either waits alone in the queue or has turned
/// out to be the only cell of the grid.
pub open spec fn root_settled(
    maze: &Maze,
    rank: Map<Coord, nat>,
    root: Coord,
    queue: Seq<Coord>,
    unreached: Seq<Coord>,
) -> bool {
    ||| maze.reached(root)
    ||| (forall|c: Coord| #[trigger] rank.contains_key(c) ==> c == root) && (queue == seq![root] || (
    queue.len() == 0 && unreached.len() == 0))
}

/// The entries name sides of `current`, each with the cell on that side; none of
/// these cells has been reached, and no entry comes twice.
pub open spec fn unreached_sides(maze: &Maze, current: Coord, entries: Seq<(usize, Coord)>) -> bool {
    &&& entries.no_duplicates()
    &&& forall|j: int|
        0 <= j < entries.len() ==> (#[trigger] entries[j]).0 < 4 && maze.has_neighbour(
            current,
            entries[j].0,
        ) && entries[j].1 == neighbour_of(current, entries[j].0) && !maze.reached(entries[j].1)
}

/// The cells of the first `count` entries, in their order.
pub open spec fn cells_of(entries: Seq<(usize, Coord)>, count: int) -> Seq<Coord> {
    Seq::new(count as nat, |j: int| entries[j].1)
}

/// A list in the order of the sides names no entry twice.
proof fn lemma_sides_differ(list: Seq<(usize, Coord)>)
    requires
        forall|i: int, j: int|
            0 <= i < j < list.len() ==> (#[trigger] list[i]).0 < (#[trigger] list[j]).0,
    ensures
        list.no_duplicates(),
{
    assert forall|i: int, j: int| 0 <= i < list.len() && 0 <= j < list.len() && i != j implies list[i]
        != list[j] by {
        if i < j {
            assert(list[i].0 < list[j].0);
        } else {
            assert(list[j].0 < list[i].0);
        }
    }
}

/// Walls that are opened leave reached cells reached, and the cell from which a
/// wall was opened is reached.
proof fn lemma_joined_reached(
    before: &Maze,
    after: &Maze,
    current: Coord,
    entries: Seq<(usize, Coord)>,
    count: int,
    c: Coord,
)
    requires
        before.in_bounds(current),
        before.in_bounds(c),
        0 <= count <= entries.len(),
        forall|j: int| 0 <= j < count ==> (#[trigger] entries[j]).0 < 4,
        before.joined_to(after, current, entries, count),
    ensures
        before.reached(c) ==> after.reached(c),
        count > 0 && c == current ==> after.reached(c),
        count == 0 ==> after.reached(c) == before.reached(c),
{
    assert(after.wall_open(c, NORTH) == (before.wall_open(c, NORTH) || joins(
        current,
        entries,
        count,
        c,
        NORTH,
    )));
    assert(after.wall_open(c, EAST) == (before.wall_open(c, EAST) || joins(
        current,
        entries,
        count,
        c,
        EAST,
    )));
    assert(after.wall_open(c, SOUTH) == (before.wall_open(c, SOUTH) || joins(
        current,
        entries,
        count,
        c,
        SOUTH,
    )));
    assert(after.wall_open(c, WEST) == (before.wall_open(c, WEST) || joins(
        current,
        entries,
        count,
        c,
        WEST,
    )));
    assert(after.marked_at(c) == before.marked_at(c));
    if count > 0 && c == current {
        let d = entries[0].0;
        assert(joins(current, entries, count, c, d));
        assert(after.wall_open(c, d));
    }
}

/// The state after the growing tree has worked on the cell `current`: the cells of
/// the first `count` entries have joined the tree and left the list of unreached
/// cells.
proof fn lemma_growth_joins(
    before: &Maze,
    after: &Maze,
    rank: Map<Coord, nat>,
    root: Coord,
    next: nat,
    listed: Seq<Coord>,
    left: Seq<Coord>,
    current: Coord,
    entries: Seq<(usize, Coord)>,
    count: int,
)
    requires
        growth(before, rank, root, next, listed),
        rank.contains_key(current),
        0 <= count <= entries.len(),
        forall|j: int|
            0 <= j < count ==> (#[trigger] entries[j]).0 < 4 && before.has_neighbour(
                current,
                entries[j].0,
            ) && entries[j].1 == neighbour_of(current, entries[j].0) && !rank.contains_key(
                entries[j].1,
            ),
        before.joined_to(after, current, entries, count),
        left.no_duplicates(),
        forall|c: Coord| left.contains(c) <==> listed.contains(c) && !is_leaf(entries, count, c),
    ensures
        growth(after, with_leaves(rank, entries, count, next), root, next + 1, left),
{
    reveal(growth);
    before.lemma_attach_many(after, rank, root, next, current, entries, count);
    let grown = with_leaves(rank, entries, count, next);
    assert forall|i: int| 0 <= i < left.len() implies after.in_bounds(#[trigger] left[i])
        && !grown.contains_key(left[i]) by {
        assert(left.contains(left[i]));
        let k = choose|k: int| 0 <= k < listed.len() && listed[k] == left[i];
        assert(before.in_bounds(listed[k]));
    }
    assert forall|c: Coord|
        after.in_bounds(c) && !#[trigger] grown.contains_key(c) implies left.contains(c) by {
        assert(!rank.contains_key(c));
        assert(listed.contains(c));
    }
    assert forall|c: Coord| after.in_bounds(c) && #[trigger] after.marked_at(c) implies c
        == root by {
        assert(before.in_bounds(c));
        assert(before.marked_at(c));
    }
}

impl MazeBuilder {
    /// What the growing tree does with the cell on top of its stack, for a given
    /// order of that cell's unreached neighbours and a given count. The cell is
    /// the last of `work_queue` and leaves it. The walls between it and the cells
    /// of the first `count` entries of `neighbours` are opened; these cells are
    /// put on the stack in their order and leave `unreachable_cells`.
    pub fn growing_tree_step(
        maze: &mut Maze,
        unreachable_cells: &mut Vec<Coord>,
        work_queue: &mut VecDeque<Coord>,
        neighbours: &Vec<(usize, Coord)>,
        count: usize,
    )
        requires
            old(maze).wf(),
            old(work_queue)@.len() > 0,
            old(maze).in_bounds(old(work_queue)@.last()),
            old(unreachable_cells)@.no_duplicates(),
            unreached_sides(old(maze), old(work_queue)@.last(), neighbours@),
            forall|j: int|
                0 <= j < neighbours@.len() ==> old(unreachable_cells)@.contains(
                    (#[trigger] neighbours@[j]).1,
                ),
            count <= neighbours@.len(),
        ensures
            old(maze).joined_to(final(maze), old(work_queue)@.last(), neighbours@, count as int),
            final(work_queue)@ == old(work_queue)@.drop_last() + cells_of(
                neighbours@,
                count as int,
            ),
            final(unreachable_cells)@.no_duplicates(),
            final(unreachable_cells)@.len() + count == old(unreachable_cells)@.len(),
            forall|c: Coord|
                #[trigger] final(unreachable_cells)@.contains(c) <==> old(
                    unreachable_cells,
                )@.contains(c) && !is_leaf(neighbours@, count as int, c),
    {
        let current = work_queue.pop_back().unwrap();
        let ghost entries = neighbours@;
        let ghost rest = work_queue@;
        proof {
            assert(rest =~= old(work_queue)@.drop_last());
            assert(rest + cells_of(entries, 0) =~= rest);
        }
        let mut i: usize = 0;
        while i < count
            invariant
                maze.wf(),
                i <= count <= entries.len(),
                entries == neighbours@,
                old(maze).wf(),
                old(maze).in_bounds(current),
                old(unreachable_cells)@.no_duplicates(),
                unreached_sides(old(maze), current, entries),
                forall|j: int|
                    0 <= j < entries.len() ==> old(unreachable_cells)@.contains(
                        (#[trigger] entries[j]).1,
                    ),
                old(maze).joined_to(maze, current, entries, i as int),
                work_queue@ == rest + cells_of(entries, i as int),
                unreachable_cells@.no_duplicates(),
                unreachable_cells@.len() + i == old(unreachable_cells)@.len(),
                forall|c: Coord|
                    #[trigger] unreachable_cells@.contains(c) <==> old(
                        unreachable_cells,
                    )@.contains(c) && !is_leaf(entries, i as int, c),
            decreases count - i,
        {
            let dir = neighbours[i].0;
            let other = neighbours[i].1;
            let ghost before = *maze;
            let ghost listed = unreachable_cells@;
            proof {
                let e = entries[i as int];
                assert(e.0 < 4 && old(maze).has_neighbour(current, e.0) && e.1 == neighbour_of(
                    current,
                    e.0,
                ) && !old(maze).reached(e.1));
                old(maze).lemma_neighbour_back(current, dir);
                old(maze).lemma_wall_symmetry(current, dir);
                assert(Pair { x: current.x, y: current.y } == current);
                // No earlier entry names this side or this cell.
                assert forall|j: int| 0 <= j < i implies (#[trigger] entries[j]).0 != dir
                    && entries[j].1 != other by {
                    assert(entries[j] != entries[i as int]);
                    assert(entries[j].0 < 4 && old(maze).has_neighbour(current, entries[j].0)
                        && entries[j].1 == neighbour_of(current, entries[j].0));
                }
                assert(!joins(current, entries, i as int, current, dir));
                assert(before.wall_open(current, dir) == (old(maze).wall_open(current, dir)
                    || joins(current, entries, i as int, current, dir)));
                assert(!is_leaf(entries, i as int, other));
                assert(old(unreachable_cells)@.contains(e.1));
            }
            maze.connect_cells(current.x, current.y, dir);
            work_queue.push_back(other);
            remove_cell(unreachable_cells, other);
            proof {
                assert(work_queue@ =~= rest + cells_of(entries, i + 1));
                assert forall|c: Coord, d: usize|
                    old(maze).in_bounds(c) && d < 4 implies #[trigger] maze.wall_open(c, d) == (
                    old(maze).wall_open(c, d) || joins(current, entries, i + 1, c, d)) by {
                    assert(before.wall_open(c, d) == (old(maze).wall_open(c, d) || joins(
                        current,
                        entries,
                        i as int,
                        c,
                        d,
                    )));
                    if joins(current, entries, i as int, c, d) {
                        let j = choose|j: int|
                            0 <= j < i && ((c == current && d == (#[trigger] entries[j]).0) || (c
                                == entries[j].1 && d == opposite(entries[j].0)));
                        assert(0 <= j < i + 1);
                    }
                    if (c == current && d == dir) || (c == other && d == opposite(dir)) {
                        assert(entries[i as int].0 == dir && entries[i as int].1 == other);
                    }
                    if joins(current, entries, i + 1, c, d) {
                        let j = choose|j: int|
                            0 <= j < i + 1 && ((c == current && d == (#[trigger] entries[j]).0)
                                || (c == entries[j].1 && d == opposite(entries[j].0)));
                        if j < i {
                            assert(joins(current, entries, i as int, c, d));
                        }
                    }
                }
                assert forall|c: Coord| #[trigger] old(maze).in_bounds(c) implies maze.marked_at(c)
                    == old(maze).marked_at(c) by {
                    assert(before.in_bounds(c));
                }
                assert forall|c: Coord|
                    #[trigger] unreachable_cells@.contains(c) <==> old(
                        unreachable_cells,
                    )@.contains(c) && !is_leaf(entries, i + 1, c) by {
                    assert(listed.contains(c) <==> old(unreachable_cells)@.contains(c) && !is_leaf(
                        entries,
                        i as int,
                        c,
                    ));
                    if is_leaf(entries, i + 1, c) {
                        let j = choose|j: int| 0 <= j < i + 1 && (#[trigger] entries[j]).1 == c;
                        if j < i {
                            assert(is_leaf(entries, i as int, c));
                        }
                    }
                    if is_leaf(entries, i as int, c) {
                        let j = choose|j: int| 0 <= j < i && (#[trigger] entries[j]).1 == c;
                        assert(0 <= j < i + 1);
                    }
                    if c == other {
                        assert(entries[i as int].1 == c);
                    }
                }
            }
            i = i + 1;
        }
    }
}

/// Works the stack off: each cell taken from it is connected to one or two of its
/// unreached neighbours, chosen at random, and these go onto the stack.
fn grow_from_queue(
    maze: &mut Maze,
    unreachable_cells: &mut Vec<Coord>,
    work_queue: &mut VecDeque<Coord>,
    rng: &mut StdRng,
    Ghost(rank0): Ghost<Map<Coord, nat>>,
    Ghost(root): Ghost<Coord>,
    Ghost(next0): Ghost<nat>,
) -> (state: Ghost<(Map<Coord, nat>, nat)>)
    requires
        growth(old(maze), rank0, root, next0, old(unreachable_cells)@),
        forall|i: int|
            0 <= i < old(work_queue)@.len() ==> rank0.contains_key(#[trigger] old(work_queue)@[i]),
        root_settled(old(maze), rank0, root, old(work_queue)@, old(unreachable_cells)@),
    ensures
        growth(final(maze), state@.0, root, state@.1, final(unreachable_cells)@),
        final(work_queue)@.len() == 0,
        final(maze).reached(root) || final(unreachable_cells)@.len() == 0,
        final(maze).width == old(maze).width,
        final(maze).height == old(maze).height,
        final(unreachable_cells)@.len() <= old(unreachable_cells)@.len(),
{
    let ghost mut rank = rank0;
    let ghost mut next = next0;
    while work_queue.len() > 0
        invariant
            maze.width == old(maze).width,
            maze.height == old(maze).height,
            growth(maze, rank, root, next, unreachable_cells@),
            forall|i: int| 0 <= i < work_queue@.len() ==> rank.contains_key(#[trigger] work_queue@[i]),
            root_settled(maze, rank, root, work_queue@, unreachable_cells@),
            unreachable_cells@.len() <= old(unreachable_cells)@.len(),
        decreases unreachable_cells@.len(), work_queue@.len(),
    {
        let ghost queue_before = work_queue@;
        let ghost before = *maze;
        let ghost listed = unreachable_cells@;
        let current_coord = work_queue[work_queue.len() - 1];
        proof {
            assert(current_coord == queue_before.last());
            lemma_growth_facts(maze, rank, root, next, unreachable_cells@);
            lemma_growth_ranked(maze, rank, root, next, unreachable_cells@, current_coord);
            lemma_growth_cell(maze, rank, root, next, unreachable_cells@, current_coord);
        }
        let mut neighbours = maze.neighbours(current_coord, CellReachType::UnreachableOnly);
        let low: usize = if neighbours.len() < 1 {
            neighbours.len()
        } else {
            1
        };
        let high: usize = if neighbours.len() < 2 {
            neighbours.len()
        } else {
            2
        };
        let used_neighbour_count = random_between(rng, low, high);
        let ghost sorted = neighbours@;
        shuffle_entries(&mut neighbours, rng);
        let ghost entries = neighbours@;
        proof {
            lemma_sides_differ(sorted);
            lemma_reordered(sorted, entries);
            assert forall|j: int| 0 <= j < entries.len() implies (#[trigger] entries[j]).0 < 4
                && maze.has_neighbour(current_coord, entries[j].0) && entries[j].1
                == neighbour_of(current_coord, entries[j].0) && !maze.reached(entries[j].1)
                && !rank.contains_key(entries[j].1) && listed.contains(entries[j].1) by {
                let e = entries[j];
                assert(sorted.contains(e));
                let k = choose|k: int| 0 <= k < sorted.len() && sorted[k] == e;
                assert(maze.offers(current_coord, CellReachType::UnreachableOnly, sorted[k].0));
                maze.lemma_neighbour_back(current_coord, e.0);
                lemma_growth_cell(maze, rank, root, next, unreachable_cells@, e.1);
                if e.1 == root {
                    assert(queue_before == seq![root]);
                }
            }
            if sorted.len() == 0 && !maze.reached(root) && unreachable_cells@.len() > 0 {
                assert(queue_before == seq![root]);
                let dir = lemma_some_neighbour(maze, root);
                maze.lemma_neighbour_back(root, dir);
                lemma_growth_cell(
                    maze,
                    rank,
                    root,
                    next,
                    unreachable_cells@,
                    neighbour_of(root, dir),
                );
                assert(maze.offers(current_coord, CellReachType::UnreachableOnly, dir));
                let i = choose|i: int| 0 <= i < sorted.len() && (#[trigger] sorted[i]).0 == dir;
                assert(false);
            }
        }
        MazeBuilder::growing_tree_step(
            maze,
            unreachable_cells,
            work_queue,
            &neighbours,
            used_neighbour_count,
        );
        proof {
            let count = used_neighbour_count as int;
            lemma_growth_joins(
                &before,
                maze,
                rank,
                root,
                next,
                listed,
                unreachable_cells@,
                current_coord,
                entries,
                count,
            );
            lemma_joined_reached(&before, maze, current_coord, entries, count, root);
            lemma_joined_reached(&before, maze, current_coord, entries, count, current_coord);
            let grown = with_leaves(rank, entries, count, next);
            assert forall|i: int| 0 <= i < work_queue@.len() implies grown.contains_key(
                #[trigger] work_queue@[i],
            ) by {
                if i < queue_before.len() - 1 {
                    assert(work_queue@[i] == queue_before[i]);
                } else {
                    let j = i - (queue_before.len() - 1);
                    assert(work_queue@[i] == entries[j].1);
                    assert(is_leaf(entries, count, entries[j].1));
                }
            }
            if count == 0 {
                assert(grown =~= rank);
                assert(work_queue@ =~= queue_before.drop_last());
            }
            rank = grown;
            next = next + 1;
        }
    }
    Ghost((rank, next))
}

/// Finds, in the order of the list, the first unreached cell that lies next to a
/// reached one, connects it to the first such neighbour and puts it on the queue.
fn adopt_stray(
    maze: &mut Maze,
    unreachable_cells: &mut Vec<Coord>,
    work_queue: &mut VecDeque<Coord>,
    Ghost(rank): Ghost<Map<Coord, nat>>,
    Ghost(root): Ghost<Coord>,
    Ghost(next): Ghost<nat>,
) -> (state: Ghost<(Map<Coord, nat>, nat)>)
    requires
        growth(old(maze), rank, root, next, old(unreachable_cells)@),
        old(unreachable_cells)@.len() > 0,
        old(work_queue)@.len() == 0,
        old(maze).reached(root),
    ensures
        growth(final(maze), state@.0, root, state@.1, final(unreachable_cells)@),
        final(work_queue)@.len() == 1,
        state@.0.contains_key(final(work_queue)@[0]),
        final(maze).reached(root),
        final(maze).width == old(maze).width,
        final(maze).height == old(maze).height,
        final(unreachable_cells)@.len() + 1 == old(unreachable_cells)@.len(),
{
    let mut i: usize = 0;
    proof {
        lemma_growth_facts(maze, rank, root, next, unreachable_cells@);
    }
    while i < unreachable_cells.len()
        invariant
            *maze == *old(maze),
            unreachable_cells@ == old(unreachable_cells)@,
            work_queue@ == old(work_queue)@,
            work_queue@.len() == 0,
            growth(maze, rank, root, next, unreachable_cells@),
            maze.wf(),
            maze.reached(root),
            i <= unreachable_cells@.len(),
            forall|j: int, dir: usize|
                0 <= j < i ==> !#[trigger] maze.offers(
                    unreachable_cells@[j],
                    CellReachType::ReachableOnly,
                    dir,
                ),
        decreases unreachable_cells@.len() - i,
    {
        let unreachable_cell = unreachable_cells[i];
        proof {
            lemma_growth_listed(maze, rank, root, next, unreachable_cells@, i as int);
            lemma_growth_facts(maze, rank, root, next, unreachable_cells@);
        }
        let neighbour_coords = maze.neighbours(unreachable_cell, CellReachType::ReachableOnly);
        if neighbour_coords.len() > 0 {
            let dir = neighbour_coords[0].0;
            let ghost before = *maze;
            proof {
                let e = neighbour_coords@[0];
                assert(maze.offers(unreachable_cell, CellReachType::ReachableOnly, e.0));
                maze.lemma_neighbour_back(unreachable_cell, dir);
                lemma_growth_cell(maze, rank, root, next, unreachable_cells@, e.1);
            }
            carve(
                maze,
                unreachable_cells,
                unreachable_cell,
                dir,
                unreachable_cell,
                Ghost(rank),
                Ghost(root),
                Ghost(next),
            );
            work_queue.push_back(unreachable_cell);
            proof {
                lemma_stays_reached(&before, maze, unreachable_cell, dir, root);
            }
            return Ghost((rank.insert(unreachable_cell, next), (next + 1) as nat));
        } else {
            proof {
                assert forall|dir: usize| !#[trigger] maze.offers(
                    unreachable_cell,
                    CellReachType::ReachableOnly,
                    dir,
                ) by {
                    if maze.offers(unreachable_cell, CellReachType::ReachableOnly, dir) {
                        let k = choose|k: int|
                            0 <= k < neighbour_coords@.len() && (#[trigger] neighbour_coords@[k]).0
                                == dir;
                    }
                }
            }
        }
        i = i + 1;
    }
    proof {
        // The grid is connected, so some unreached cell lies next to the tree.
        lemma_growth_listed(maze, rank, root, next, unreachable_cells@, 0);
        let at = lemma_frontier(maze, rank, unreachable_cells@[0], root);
        lemma_growth_cell(maze, rank, root, next, unreachable_cells@, at.0);
        maze.lemma_neighbour_back(at.0, at.1);
        lemma_growth_cell(maze, rank, root, next, unreachable_cells@, neighbour_of(at.0, at.1));
        let j = choose|j: int| 0 <= j < unreachable_cells@.len() && unreachable_cells@[j] == at.0;
        assert(maze.offers(unreachable_cells@[j], CellReachType::ReachableOnly, at.1));
        assert(false);
    }
    Ghost((rank, next))
}

impl MazeBuilder {
    /// The randomized growing tree. A stack of cells starts with `start`; each cell
    /// taken from it is connected to one or two of its unreached neighbours, which
    /// go onto the stack. When the stack runs empty while cells are left, one
    /// unreached cell next to a reached one is connected and the work resumes there.
    pub fn random_maze_creation(maze: &mut Maze, start: Coord, rng: &mut StdRng)
        requires
            old(maze).wf(),
            old(maze).fully_walled(),
            old(maze).in_bounds(start),
        ensures
            final(maze).wf(),
            final(maze).width == old(maze).width,
            final(maze).height == old(maze).height,
            final(maze).enclosed(),
            final(maze).is_perfect(),
    {
        let mut unreachable_cells = begin_growth(maze, start);
        let ghost mut rank = Map::<Coord, nat>::empty().insert(start, 0);
        let ghost mut next: nat = 1;
        let mut work_queue: VecDeque<Coord> = VecDeque::new();
        work_queue.push_back(start);
        proof {
            assert(work_queue@ =~= seq![start]);
        }
        let state = grow_from_queue(
            maze,
            &mut unreachable_cells,
            &mut work_queue,
            rng,
            Ghost(rank),
            Ghost(start),
            Ghost(next),
        );
        proof {
            rank = state@.0;
            next = state@.1;
        }
        while unreachable_cells.len() > 0
            invariant
                maze.width == old(maze).width,
                maze.height == old(maze).height,
                growth(maze, rank, start, next, unreachable_cells@),
                work_queue@.len() == 0,
                maze.reached(start) || unreachable_cells@.len() == 0,
            decreases unreachable_cells@.len(),
        {
            let adopted = adopt_stray(
                maze,
                &mut unreachable_cells,
                &mut work_queue,
                Ghost(rank),
                Ghost(start),
                Ghost(next),
            );
            let state = grow_from_queue(
                maze,
                &mut unreachable_cells,
                &mut work_queue,
                rng,
                Ghost(adopted@.0),
                Ghost(start),
                Ghost(adopted@.1),
            );
            proof {
                rank = state@.0;
                next = state@.1;
            }
        }
        proof {
            lemma_growth_ends(maze, rank, start, next, unreachable_cells@);
        }
    }
}

} // verus!
