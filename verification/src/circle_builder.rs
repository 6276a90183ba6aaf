use crate::circle_maze::{lemma_ring_sizes, ring_size, CircleMaze};
use crate::circle_maze_cell::CircleMazeCellDirection;
use crate::circle_tree::{ring_is_leaf, ring_joins, ring_with_leaves};
use crate::maze_builder::{remove_cell, MazeBuilder};
use crate::pair::Pair;
use crate::random::{lemma_reordered, random_between, shuffle_entries};
use crate::util::{CellReachType, Coord};
use rand::rngs::StdRng;
use std::collections::VecDeque;
use vstd::prelude::*;

verus! {

/// The state of the growing tree on a ring grid: the open walls form a tree on the
/// ranked cells, every rank is below `next`, and `unreached` lists the cells that
/// are not ranked yet, each once.
#[verifier::opaque]
pub open spec fn ring_growth(
    maze: &CircleMaze,
    rank: Map<Coord, nat>,
    root: Coord,
    next: nat,
    unreached: Seq<Coord>,
) -> bool {
    &&& maze.tree_on(rank, root)
    &&& forall|c: Coord| #[trigger] rank.contains_key(c) ==> rank[c] < next
    &&& unreached.no_duplicates()
    &&& forall|i: int|
        0 <= i < unreached.len() ==> maze.in_bounds(#[trigger] unreached[i])
            && !rank.contains_key(unreached[i])
    &&& forall|c: Coord|
        maze.in_bounds(c) && !#[trigger] rank.contains_key(c) ==> unreached.contains(c)
}

/// What the state of a growing tree says as a whole.
proof fn lemma_growth_facts(
    maze: &CircleMaze,
    rank: Map<Coord, nat>,
    root: Coord,
    next: nat,
    unreached: Seq<Coord>,
)
    requires
        ring_growth(maze, rank, root, next, unreached),
    ensures
        maze.tree_on(rank, root),
        maze.sound(),
        maze.in_bounds(root),
        rank.contains_key(root),
        unreached.no_duplicates(),
        unreached.len() == 0 ==> maze.all_ranked(rank),
        unreached.len() > 0 ==> maze.height >= 2,
{
    reveal(ring_growth);
    maze.lemma_tree_sound(rank, root);
    lemma_ring_sizes(0);
    if unreached.len() == 0 {
        assert forall|c: Coord| maze.in_bounds(c) implies #[trigger] rank.contains_key(c) by {
            if !rank.contains_key(c) {
                assert(unreached.contains(c));
            }
        }
    } else {
        assert(maze.in_bounds(unreached[0]) && !rank.contains_key(unreached[0]));
    }
}

/// What the state of a growing tree says of one cell: it is listed as unreached
/// exactly when it is not ranked; a reached cell is ranked; and a ranked cell other
/// than the root is reached.
proof fn lemma_growth_cell(
    maze: &CircleMaze,
    rank: Map<Coord, nat>,
    root: Coord,
    next: nat,
    unreached: Seq<Coord>,
    c: Coord,
)
    requires
        ring_growth(maze, rank, root, next, unreached),
        maze.in_bounds(c),
    ensures
        unreached.contains(c) <==> !rank.contains_key(c),
        maze.reached(c) ==> rank.contains_key(c),
        rank.contains_key(c) && c != root ==> maze.reached(c),
        !rank.contains_key(c) ==> forall|dir: CircleMazeCellDirection|
            maze.cell(c).has_side(dir) ==> !#[trigger] maze.wall_open(c, dir),
{
    reveal(ring_growth);
    reveal(CircleMaze::tree_on);
    assert(maze.cell_fits(c));
    maze.cell(c).lemma_reachable();
    if maze.reached(c) {
        let dir = choose|dir: CircleMazeCellDirection|
            maze.cell(c).has_side(dir) && #[trigger] maze.cell(c).open_at(dir);
        assert(maze.wall_open(c, dir));
    }
    if rank.contains_key(c) && c != root {
        assert(maze.has_parent(rank, c));
        let dir = choose|dir: CircleMazeCellDirection| #[trigger] maze.descends(rank, c, dir);
        maze.lemma_sides(c, dir);
        assert(maze.cell(c).has_side(dir) && maze.cell(c).open_at(dir));
    }
}

/// A ranked cell lies in the grid.
proof fn lemma_growth_ranked(
    maze: &CircleMaze,
    rank: Map<Coord, nat>,
    root: Coord,
    next: nat,
    unreached: Seq<Coord>,
    c: Coord,
)
    requires
        ring_growth(maze, rank, root, next, unreached),
        rank.contains_key(c),
    ensures
        maze.in_bounds(c),
{
    reveal(ring_growth);
    reveal(CircleMaze::tree_on);
}

/// A cell that is listed as unreached lies in the grid and is not ranked.
proof fn lemma_growth_listed(
    maze: &CircleMaze,
    rank: Map<Coord, nat>,
    root: Coord,
    next: nat,
    unreached: Seq<Coord>,
    i: int,
)
    requires
        ring_growth(maze, rank, root, next, unreached),
        0 <= i < unreached.len(),
    ensures
        maze.in_bounds(unreached[i]),
        !rank.contains_key(unreached[i]),
{
    reveal(ring_growth);
}

/// In a grid of two or more rings every cell has a neighbour: the hub to its north,
/// any other cell to its south.
proof fn lemma_some_neighbour(maze: &CircleMaze, c: Coord) -> (dir: CircleMazeCellDirection)
    requires
        maze.in_bounds(c),
        maze.height >= 2,
    ensures
        maze.has_neighbour(c, dir),
{
    if c.y == 0 {
        CircleMazeCellDirection::North(0)
    } else {
        CircleMazeCellDirection::South
    }
}

/// The grid itself is connected: between a ranked cell and a cell that is not
/// ranked, some cell that is not ranked lies next to a ranked one. The way leads
/// from both cells towards the hub.
proof fn lemma_frontier(maze: &CircleMaze, rank: Map<Coord, nat>, a: Coord, b: Coord) -> (at: (
    Coord,
    CircleMazeCellDirection,
))
    requires
        maze.height <= usize::MAX / 16,
        maze.in_bounds(a),
        maze.in_bounds(b),
        !rank.contains_key(a),
        rank.contains_key(b),
    ensures
        maze.in_bounds(at.0),
        !rank.contains_key(at.0),
        maze.has_neighbour(at.0, at.1),
        rank.contains_key(CircleMaze::neighbour_of(at.0, at.1)),
    decreases a.y + b.y,
{
    lemma_ring_sizes(0);
    if a.y > 0 {
        let step = CircleMaze::neighbour_of(a, CircleMazeCellDirection::South);
        maze.lemma_neighbour_back(a, CircleMazeCellDirection::South);
        if rank.contains_key(step) {
            (a, CircleMazeCellDirection::South)
        } else {
            lemma_frontier(maze, rank, step, b)
        }
    } else {
        assert(a != b);
        assert(b.y > 0);
        let step = CircleMaze::neighbour_of(b, CircleMazeCellDirection::South);
        let back = CircleMaze::opposite_of(b, CircleMazeCellDirection::South);
        maze.lemma_neighbour_back(b, CircleMazeCellDirection::South);
        if rank.contains_key(step) {
            lemma_frontier(maze, rank, a, step)
        } else {
            (step, back)
        }
    }
}

/// The state after the wall between a ranked cell and the cell `fresh`, which was
/// not ranked, has been opened and `fresh` has left the list of unreached cells.
proof fn lemma_growth_step(
    before: &CircleMaze,
    after: &CircleMaze,
    rank: Map<Coord, nat>,
    root: Coord,
    next: nat,
    listed: Seq<Coord>,
    left: Seq<Coord>,
    from: Coord,
    dir: CircleMazeCellDirection,
    fresh: Coord,
)
    requires
        ring_growth(before, rank, root, next, listed),
        before.has_neighbour(from, dir),
        rank.contains_key(from) != rank.contains_key(CircleMaze::neighbour_of(from, dir)),
        fresh == if rank.contains_key(from) {
            CircleMaze::neighbour_of(from, dir)
        } else {
            from
        },
        before.opened_between(after, from, dir),
        left.no_duplicates(),
        forall|c: Coord| left.contains(c) <==> listed.contains(c) && c != fresh,
    ensures
        ring_growth(after, rank.insert(fresh, next), root, next + 1, left),
{
    reveal(ring_growth);
    before.lemma_tree_sound(rank, root);
    before.lemma_neighbour_back(from, dir);
    before.lemma_attach(after, rank, root, next, from, dir);
    let grown = rank.insert(fresh, next);
    assert forall|i: int| 0 <= i < left.len() implies after.in_bounds(#[trigger] left[i])
        && !grown.contains_key(left[i]) by {
        assert(left.contains(left[i]));
        let k = choose|k: int| 0 <= k < listed.len() && listed[k] == left[i];
        assert(before.in_bounds(listed[k]));
    }
    assert forall|c: Coord|
        after.in_bounds(c) && !#[trigger] grown.contains_key(c) implies left.contains(c) by {
        assert(!rank.contains_key(c));
        assert(listed.contains(c));
    }
}

/// Opens the wall between `from` and its neighbour on the side `dir`. One of the two
/// cells belongs to the tree, the other, `fresh`, joins it.
fn carve(
    maze: &mut CircleMaze,
    unreached: &mut Vec<Coord>,
    from: Coord,
    dir: CircleMazeCellDirection,
    fresh: Coord,
    Ghost(rank): Ghost<Map<Coord, nat>>,
    Ghost(root): Ghost<Coord>,
    Ghost(next): Ghost<nat>,
)
    requires
        ring_growth(old(maze), rank, root, next, old(unreached)@),
        old(maze).has_neighbour(from, dir),
        rank.contains_key(from) != rank.contains_key(CircleMaze::neighbour_of(from, dir)),
        fresh == if rank.contains_key(from) {
            CircleMaze::neighbour_of(from, dir)
        } else {
            from
        },
    ensures
        ring_growth(final(maze), rank.insert(fresh, next), root, next + 1, final(unreached)@),
        final(unreached)@.len() + 1 == old(unreached)@.len(),
        old(maze).opened_between(final(maze), from, dir),
{
    proof {
        lemma_growth_facts(old(maze), rank, root, next, old(unreached)@);
        old(maze).lemma_neighbour_back(from, dir);
        lemma_growth_cell(old(maze), rank, root, next, old(unreached)@, fresh);
        let other = CircleMaze::neighbour_of(from, dir);
        let back = CircleMaze::opposite_of(from, dir);
        old(maze).lemma_sides(from, dir);
        old(maze).lemma_sides(other, back);
        old(maze).lemma_wall_symmetry(from, dir);
    }
    maze.connect_cells(from, dir);
    remove_cell(unreached, fresh);
    proof {
        lemma_growth_step(
            old(maze),
            maze,
            rank,
            root,
            next,
            old(unreached)@,
            unreached@,
            from,
            dir,
            fresh,
        );
    }
}

/// Lists the cells of the grid, ring by ring.
pub fn ring_cells(maze: &CircleMaze) -> (cells: Vec<Coord>)
    requires
        maze.wf(),
    ensures
        cells@.no_duplicates(),
        forall|i: int| 0 <= i < cells@.len() ==> maze.in_bounds(#[trigger] cells@[i]),
        forall|c: Coord| maze.in_bounds(c) ==> cells@.contains(c),
{
    let mut cells: Vec<Coord> = Vec::new();
    let mut y: usize = 0;
    while y < maze.height
        invariant
            maze.wf(),
            y <= maze.height,
            cells@.no_duplicates(),
            forall|i: int|
                0 <= i < cells@.len() ==> maze.in_bounds(#[trigger] cells@[i]) && cells@[i].y < y,
            forall|c: Coord| maze.in_bounds(c) && c.y < y ==> cells@.contains(c),
        decreases maze.height - y,
    {
        let mut x: usize = 0;
        let ring_len = maze.cells[y].len();
        while x < ring_len
            invariant
                maze.wf(),
                y < maze.height,
                ring_len == ring_size(y as nat),
                x <= ring_len,
                cells@.no_duplicates(),
                forall|i: int|
                    0 <= i < cells@.len() ==> maze.in_bounds(#[trigger] cells@[i]) && (cells@[i].y
                        < y || (cells@[i].y == y && cells@[i].x < x)),
                forall|c: Coord|
                    maze.in_bounds(c) && (c.y < y || (c.y == y && c.x < x)) ==> cells@.contains(c),
            decreases ring_len - x,
        {
            let ghost before = cells@;
            cells.push(Pair::new(x, y));
            proof {
                let here = Pair { x, y };
                assert forall|i: int, j: int|
                    0 <= i < cells@.len() && 0 <= j < cells@.len() && i != j implies cells@[i]
                    != cells@[j] by {
                    if i < before.len() {
                        assert(cells@[i] == before[i]);
                    }
                    if j < before.len() {
                        assert(cells@[j] == before[j]);
                    }
                }
                assert forall|c: Coord|
                    maze.in_bounds(c) && (c.y < y || (c.y == y && c.x < x + 1)) implies cells@.contains(
                    c,
                ) by {
                    if c == here {
                        assert(cells@[before.len() as int] == c);
                    } else {
                        let i = choose|i: int| 0 <= i < before.len() && before[i] == c;
                        assert(cells@[i] == c);
                    }
                }
            }
            x = x + 1;
        }
        y = y + 1;
    }
    cells
}

/// Lists the cells that a tree rooted at `start` has yet to reach.
fn begin_growth(maze: &CircleMaze, start: Coord) -> (unreached: Vec<Coord>)
    requires
        maze.sound(),
        maze.in_bounds(start),
        forall|c: Coord| #[trigger] maze.in_bounds(c) ==> !maze.reached(c),
    ensures
        ring_growth(maze, Map::<Coord, nat>::empty().insert(start, 0), start, 1, unreached@),
{
    let mut unreached = ring_cells(maze);
    let ghost all = unreached@;
    remove_cell(&mut unreached, start);
    proof {
        reveal(ring_growth);
        maze.lemma_tree_begins(start);
        let rank = Map::<Coord, nat>::empty().insert(start, 0);
        assert forall|i: int| 0 <= i < unreached@.len() implies maze.in_bounds(
            #[trigger] unreached@[i],
        ) && !rank.contains_key(unreached@[i]) by {
            assert(unreached@.contains(unreached@[i]));
            let k = choose|k: int| 0 <= k < all.len() && all[k] == unreached@[i];
            assert(maze.in_bounds(all[k]));
        }
    }
    unreached
}

/// What the growing tree keeps true of its root: it has been reached, or it is
/// the only cell of the tree and either waits alone in the queue or has turned
/// out to be the only cell of the grid.
pub open spec fn ring_root_settled(
    maze: &CircleMaze,
    rank: Map<Coord, nat>,
    root: Coord,
    queue: Seq<Coord>,
    unreached: Seq<Coord>,
) -> bool {
    ||| maze.reached(root)
    ||| (forall|c: Coord| #[trigger] rank.contains_key(c) ==> c == root) && (queue == seq![root] || (
    queue.len() == 0 && unreached.len() == 0))
}

/// The entries name sides of `current`, each with the cell on that side; none of
/// these cells has been reached, and no entry comes twice.
pub open spec fn ring_unreached_sides(
    maze: &CircleMaze,
    current: Coord,
    entries: Seq<(CircleMazeCellDirection, Coord)>,
) -> bool {
    &&& entries.no_duplicates()
    &&& forall|j: int|
        0 <= j < entries.len() ==> maze.has_neighbour(current, (#[trigger] entries[j]).0)
            && entries[j].1 == CircleMaze::neighbour_of(current, entries[j].0) && !maze.reached(
            entries[j].1,
        )
}

/// The cells of the first `count` entries, in their order.
pub open spec fn ring_cells_of(
    entries: Seq<(CircleMazeCellDirection, Coord)>,
    count: int,
) -> Seq<Coord> {
    Seq::new(count as nat, |j: int| entries[j].1)
}

/// A list in the order of the sides names no entry twice.
proof fn lemma_sides_differ(list: Seq<(CircleMazeCellDirection, Coord)>)
    requires
        forall|i: int, j: int|
            0 <= i < j < list.len() ==> crate::circle_maze::side_order((#[trigger] list[i]).0)
                < crate::circle_maze::side_order((#[trigger] list[j]).0),
    ensures
        list.no_duplicates(),
{
    assert forall|i: int, j: int| 0 <= i < list.len() && 0 <= j < list.len() && i != j implies list[i]
        != list[j] by {
        if i < j {
            assert(crate::circle_maze::side_order(list[i].0) < crate::circle_maze::side_order(
                list[j].0,
            ));
        } else {
            assert(crate::circle_maze::side_order(list[j].0) < crate::circle_maze::side_order(
                list[i].0,
            ));
        }
    }
}

/// On different sides of a cell lie different neighbours.
proof fn lemma_sides_apart(
    maze: &CircleMaze,
    c: Coord,
    d1: CircleMazeCellDirection,
    d2: CircleMazeCellDirection,
)
    requires
        maze.height <= usize::MAX / 16,
        maze.has_neighbour(c, d1),
        maze.has_neighbour(c, d2),
        d1 != d2,
    ensures
        CircleMaze::neighbour_of(c, d1) != CircleMaze::neighbour_of(c, d2),
{
    maze.lemma_neighbour_back(c, d1);
    maze.lemma_neighbour_back(c, d2);
    lemma_ring_sizes(c.y as nat);
    if d1 == CircleMazeCellDirection::East && d2 == CircleMazeCellDirection::West
        || d1 == CircleMazeCellDirection::West && d2 == CircleMazeCellDirection::East {
        let len = ring_size(c.y as nat) as int;
        crate::circle_maze::lemma_ring_steps(c.x as int, len);
        let e = (c.x + 1) % len;
        let w = (c.x + len - 1) % len;
        if e == w {
            crate::circle_maze::lemma_ring_steps(e, len);
            // Two steps east would lead back: the ring would have two cells.
            if c.x + 1 < len {
                vstd::arithmetic::div_mod::lemma_small_mod((c.x + 1) as nat, len as nat);
            } else {
                vstd::arithmetic::div_mod::lemma_mod_self_0(len);
            }
            if c.x >= 1 {
                vstd::arithmetic::div_mod::lemma_mod_add_multiples_vanish(c.x - 1, len);
                vstd::arithmetic::div_mod::lemma_small_mod((c.x - 1) as nat, len as nat);
            } else {
                vstd::arithmetic::div_mod::lemma_small_mod((len - 1) as nat, len as nat);
            }
        }
    }
}

/// Walls that are opened leave reached cells reached, and the cell from which a
/// wall was opened is reached.
proof fn lemma_joined_reached(
    before: &CircleMaze,
    after: &CircleMaze,
    current: Coord,
    entries: Seq<(CircleMazeCellDirection, Coord)>,
    count: int,
    c: Coord,
)
    requires
        before.wf(),
        before.in_bounds(current),
        before.in_bounds(c),
        0 <= count <= entries.len(),
        forall|j: int| 0 <= j < count ==> before.has_neighbour(current, (#[trigger] entries[j]).0),
        before.joined_to(after, current, entries, count),
    ensures
        before.reached(c) ==> after.reached(c),
        count > 0 && c == current ==> after.reached(c),
        count == 0 ==> after.reached(c) == before.reached(c),
{
    assert(before.cell_fits(c));
    assert(after.in_bounds(c));
    assert(after.cell_fits(c));
    before.cell(c).lemma_reachable();
    after.cell(c).lemma_reachable();
    if before.reached(c) {
        let d = choose|d: CircleMazeCellDirection|
            before.cell(c).has_side(d) && #[trigger] before.cell(c).open_at(d);
        assert(after.wall_open(c, d));
        assert(after.cell(c).has_side(d) && after.cell(c).open_at(d));
    }
    if count > 0 && c == current {
        let d = entries[0].0;
        before.lemma_same_sides(after, c, d);
        assert(ring_joins(current, entries, count, c, d));
        assert(after.wall_open(c, d));
        assert(after.cell(c).has_side(d) && after.cell(c).open_at(d));
    }
    if count == 0 && after.reached(c) {
        let d = choose|d: CircleMazeCellDirection|
            after.cell(c).has_side(d) && #[trigger] after.cell(c).open_at(d);
        assert(after.wall_open(c, d));
        assert(before.cell(c).has_side(d) && before.cell(c).open_at(d));
    }
}

/// The state after the growing tree has worked on the cell `current`: the cells of
/// the first `count` entries have joined the tree and left the list of unreached
/// cells.
proof fn lemma_growth_joins(
    before: &CircleMaze,
    after: &CircleMaze,
    rank: Map<Coord, nat>,
    root: Coord,
    next: nat,
    listed: Seq<Coord>,
    left: Seq<Coord>,
    current: Coord,
    entries: Seq<(CircleMazeCellDirection, Coord)>,
    count: int,
)
    requires
        ring_growth(before, rank, root, next, listed),
        rank.contains_key(current),
        0 <= count <= entries.len(),
        forall|j: int|
            0 <= j < count ==> before.has_neighbour(current, (#[trigger] entries[j]).0)
                && entries[j].1 == CircleMaze::neighbour_of(current, entries[j].0)
                && !rank.contains_key(entries[j].1),
        before.joined_to(after, current, entries, count),
        left.no_duplicates(),
        forall|c: Coord|
            #[trigger] left.contains(c) <==> listed.contains(c) && !ring_is_leaf(entries, count, c),
    ensures
        ring_growth(after, ring_with_leaves(rank, entries, count, next), root, next + 1, left),
{
    reveal(ring_growth);
    before.lemma_attach_many(after, rank, root, next, current, entries, count);
    let grown = ring_with_leaves(rank, entries, count, next);
    assert forall|i: int| 0 <= i < left.len() implies after.in_bounds(#[trigger] left[i])
        && !grown.contains_key(left[i]) by {
        assert(left.contains(left[i]));
        let k = choose|k: int| 0 <= k < listed.len() && listed[k] == left[i];
        assert(before.in_bounds(listed[k]));
    }
    assert forall|c: Coord|
        after.in_bounds(c) && !#[trigger] grown.contains_key(c) implies left.contains(c) by {
        assert(!rank.contains_key(c));
        assert(listed.contains(c));
    }
}

impl MazeBuilder {
    /// What the growing tree on a ring grid does with the cell on top of its stack,
    /// for a given order of that cell's unreached neighbours and a given count. The
    /// cell is the last of `work_queue` and leaves it. The walls between it and the
    /// cells of the first `count` entries of `neighbours` are opened; these cells
    /// are put on the stack in their order and leave `unreachable_cells`.
    pub fn growing_tree_circle_step(
        maze: &mut CircleMaze,
        unreachable_cells: &mut Vec<Coord>,
        work_queue: &mut VecDeque<Coord>,
        neighbours: &Vec<(CircleMazeCellDirection, Coord)>,
        count: usize,
    )
        requires
            old(maze).sound(),
            old(work_queue)@.len() > 0,
            old(maze).in_bounds(old(work_queue)@.last()),
            old(unreachable_cells)@.no_duplicates(),
            ring_unreached_sides(old(maze), old(work_queue)@.last(), neighbours@),
            forall|j: int|
                0 <= j < neighbours@.len() ==> old(unreachable_cells)@.contains(
                    (#[trigger] neighbours@[j]).1,
                ),
            count <= neighbours@.len(),
        ensures
            old(maze).joined_to(final(maze), old(work_queue)@.last(), neighbours@, count as int),
            final(work_queue)@ == old(work_queue)@.drop_last() + ring_cells_of(
                neighbours@,
                count as int,
            ),
            final(unreachable_cells)@.no_duplicates(),
            final(unreachable_cells)@.len() + count == old(unreachable_cells)@.len(),
            forall|c: Coord|
                #[trigger] final(unreachable_cells)@.contains(c) <==> old(
                    unreachable_cells,
                )@.contains(c) && !ring_is_leaf(neighbours@, count as int, c),
    {
        let current = work_queue.pop_back().unwrap();
        let ghost entries = neighbours@;
        let ghost rest = work_queue@;
        proof {
            assert(rest =~= old(work_queue)@.drop_last());
            assert(rest + ring_cells_of(entries, 0) =~= rest);
        }
        let mut i: usize = 0;
        while i < count
            invariant
                maze.sound(),
                maze.height == old(maze).height,
                i <= count <= entries.len(),
                entries == neighbours@,
                old(maze).sound(),
                old(maze).in_bounds(current),
                old(unreachable_cells)@.no_duplicates(),
                ring_unreached_sides(old(maze), current, entries),
                forall|j: int|
                    0 <= j < entries.len() ==> old(unreachable_cells)@.contains(
                        (#[trigger] entries[j]).1,
                    ),
                old(maze).joined_to(maze, current, entries, i as int),
                work_queue@ == rest + ring_cells_of(entries, i as int),
                unreachable_cells@.no_duplicates(),
                unreachable_cells@.len() + i == old(unreachable_cells)@.len(),
                forall|c: Coord|
                    #[trigger] unreachable_cells@.contains(c) <==> old(
                        unreachable_cells,
                    )@.contains(c) && !ring_is_leaf(entries, i as int, c),
            decreases count - i,
        {
            let dir = neighbours[i].0;
            let other = neighbours[i].1;
            let ghost before = *maze;
            let ghost listed = unreachable_cells@;
            let ghost back = CircleMaze::opposite_of(current, dir);
            proof {
                let e = entries[i as int];
                assert(old(maze).has_neighbour(current, e.0) && e.1 == CircleMaze::neighbour_of(
                    current,
                    e.0,
                ) && !old(maze).reached(e.1));
                old(maze).lemma_neighbour_back(current, dir);
                old(maze).lemma_wall_symmetry(current, dir);
                old(maze).lemma_sides(current, dir);
                old(maze).lemma_sides(other, back);
                old(maze).lemma_same_sides(&before, current, dir);
                old(maze).lemma_same_sides(&before, other, back);
                assert(old(maze).cell_fits(other));
                old(maze).cell(other).lemma_reachable();
                assert(!old(maze).wall_open(other, back));
                // No earlier entry names this side or this cell.
                assert forall|j: int| 0 <= j < i implies (#[trigger] entries[j]).0 != dir
                    && entries[j].1 != other && entries[j].1 != current by {
                    assert(entries[j] != entries[i as int]);
                    assert(old(maze).has_neighbour(current, entries[j].0) && entries[j].1
                        == CircleMaze::neighbour_of(current, entries[j].0));
                    old(maze).lemma_neighbour_back(current, entries[j].0);
                    if entries[j].0 != dir {
                        lemma_sides_apart(old(maze), current, entries[j].0, dir);
                    }
                }
                assert(!ring_joins(current, entries, i as int, current, dir));
                assert(!ring_joins(current, entries, i as int, other, back));
                assert(before.wall_open(current, dir) == (old(maze).wall_open(current, dir)
                    || ring_joins(current, entries, i as int, current, dir)));
                assert(before.wall_open(other, back) == (old(maze).wall_open(other, back)
                    || ring_joins(current, entries, i as int, other, back)));
                assert(!ring_is_leaf(entries, i as int, other));
                assert(old(unreachable_cells)@.contains(e.1));
            }
            maze.connect_cells(current, dir);
            work_queue.push_back(other);
            remove_cell(unreachable_cells, other);
            proof {
                assert(work_queue@ =~= rest + ring_cells_of(entries, i + 1));
                assert forall|c: Coord, d: CircleMazeCellDirection|
                    old(maze).in_bounds(c) && old(maze).cell(c).has_side(
                        d,
                    ) implies #[trigger] maze.wall_open(c, d) == (old(maze).wall_open(c, d)
                    || ring_joins(current, entries, i + 1, c, d)) by {
                    old(maze).lemma_same_sides(&before, c, d);
                    assert(before.wall_open(c, d) == (old(maze).wall_open(c, d) || ring_joins(
                        current,
                        entries,
                        i as int,
                        c,
                        d,
                    )));
                    if ring_joins(current, entries, i as int, c, d) {
                        let j = choose|j: int|
                            0 <= j < i && ((c == current && d == (#[trigger] entries[j]).0) || (c
                                == entries[j].1 && d == CircleMaze::opposite_of(
                                current,
                                entries[j].0,
                            )));
                        assert(0 <= j < i + 1);
                    }
                    if (c == current && d == dir) || (c == other && d == back) {
                        assert(entries[i as int].0 == dir && entries[i as int].1 == other);
                    }
                    if ring_joins(current, entries, i + 1, c, d) {
                        let j = choose|j: int|
                            0 <= j < i + 1 && ((c == current && d == (#[trigger] entries[j]).0)
                                || (c == entries[j].1 && d == CircleMaze::opposite_of(
                                current,
                                entries[j].0,
                            )));
                        if j < i {
                            assert(ring_joins(current, entries, i as int, c, d));
                        }
                    }
                }
                assert forall|c: Coord|
                    #[trigger] unreachable_cells@.contains(c) <==> old(
                        unreachable_cells,
                    )@.contains(c) && !ring_is_leaf(entries, i + 1, c) by {
                    assert(listed.contains(c) <==> old(unreachable_cells)@.contains(c)
                        && !ring_is_leaf(entries, i as int, c));
                    if ring_is_leaf(entries, i + 1, c) {
                        let j = choose|j: int| 0 <= j < i + 1 && (#[trigger] entries[j]).1 == c;
                        if j < i {
                            assert(ring_is_leaf(entries, i as int, c));
                        }
                    }
                    if ring_is_leaf(entries, i as int, c) {
                        let j = choose|j: int| 0 <= j < i && (#[trigger] entries[j]).1 == c;
                        assert(0 <= j < i + 1);
                    }
                    if c == other {
                        assert(entries[i as int].1 == c);
                    }
                }
            }
            i = i + 1;
        }
    }
}

/// Works the stack off: each cell taken from it is connected to one or two of its
/// unreached neighbours, chosen at random, and these go onto the stack.
fn grow_from_queue(
    maze: &mut CircleMaze,
    unreachable_cells: &mut Vec<Coord>,
    work_queue: &mut VecDeque<Coord>,
    rng: &mut StdRng,
    Ghost(rank0): Ghost<Map<Coord, nat>>,
    Ghost(root): Ghost<Coord>,
    Ghost(next0): Ghost<nat>,
) -> (state: Ghost<(Map<Coord, nat>, nat)>)
    requires
        ring_growth(old(maze), rank0, root, next0, old(unreachable_cells)@),
        forall|i: int|
            0 <= i < old(work_queue)@.len() ==> rank0.contains_key(#[trigger] old(work_queue)@[i]),
        ring_root_settled(old(maze), rank0, root, old(work_queue)@, old(unreachable_cells)@),
    ensures
        ring_growth(final(maze), state@.0, root, state@.1, final(unreachable_cells)@),
        final(work_queue)@.len() == 0,
        final(maze).reached(root) || final(unreachable_cells)@.len() == 0,
        final(maze).height == old(maze).height,
        final(unreachable_cells)@.len() <= old(unreachable_cells)@.len(),
{
    let ghost mut rank = rank0;
    let ghost mut next = next0;
    while work_queue.len() > 0
        invariant
            maze.height == old(maze).height,
            ring_growth(maze, rank, root, next, unreachable_cells@),
            forall|i: int| 0 <= i < work_queue@.len() ==> rank.contains_key(#[trigger] work_queue@[i]),
            ring_root_settled(maze, rank, root, work_queue@, unreachable_cells@),
            unreachable_cells@.len() <= old(unreachable_cells)@.len(),
        decreases unreachable_cells@.len(), work_queue@.len(),
    {
        let ghost queue_before = work_queue@;
        let ghost before = *maze;
        let ghost listed = unreachable_cells@;
        let current_coord = work_queue[work_queue.len() - 1];
        proof {
            assert(current_coord == queue_before.last());
            lemma_growth_facts(maze, rank, root, next, unreachable_cells@);
            lemma_growth_ranked(maze, rank, root, next, unreachable_cells@, current_coord);
            lemma_growth_cell(maze, rank, root, next, unreachable_cells@, current_coord);
        }
        let mut neighbours = maze.neighbours(current_coord, CellReachType::UnreachableOnly);
        let low: usize = if neighbours.len() < 1 {
            neighbours.len()
        } else {
            1
        };
        let high: usize = if neighbours.len() < 2 {
            neighbours.len()
        } else {
            2
        };
        let used_neighbour_count = random_between(rng, low, high);
        let ghost sorted = neighbours@;
        shuffle_entries(&mut neighbours, rng);
        let ghost entries = neighbours@;
        proof {
            lemma_sides_differ(sorted);
            lemma_reordered(sorted, entries);
            assert forall|j: int| 0 <= j < entries.len() implies maze.has_neighbour(
                current_coord,
                (#[trigger] entries[j]).0,
            ) && entries[j].1 == CircleMaze::neighbour_of(current_coord, entries[j].0)
                && !maze.reached(entries[j].1) && !rank.contains_key(entries[j].1)
                && listed.contains(entries[j].1) by {
                let e = entries[j];
                assert(sorted.contains(e));
                let k = choose|k: int| 0 <= k < sorted.len() && sorted[k] == e;
                assert(maze.offers(current_coord, CellReachType::UnreachableOnly, sorted[k].0));
                maze.lemma_neighbour_back(current_coord, e.0);
                lemma_growth_cell(maze, rank, root, next, unreachable_cells@, e.1);
                if e.1 == root {
                    assert(queue_before == seq![root]);
                }
            }
            if sorted.len() == 0 && !maze.reached(root) && unreachable_cells@.len() > 0 {
                assert(queue_before == seq![root]);
                let dir = lemma_some_neighbour(maze, root);
                maze.lemma_neighbour_back(root, dir);
                lemma_growth_cell(
                    maze,
                    rank,
                    root,
                    next,
                    unreachable_cells@,
                    CircleMaze::neighbour_of(root, dir),
                );
                assert(maze.offers(current_coord, CellReachType::UnreachableOnly, dir));
                let i = choose|i: int| 0 <= i < sorted.len() && (#[trigger] sorted[i]).0 == dir;
                assert(false);
            }
        }
        MazeBuilder::growing_tree_circle_step(
            maze,
            unreachable_cells,
            work_queue,
            &neighbours,
            used_neighbour_count,
        );
        proof {
            let count = used_neighbour_count as int;
            lemma_growth_joins(
                &before,
                maze,
                rank,
                root,
                next,
                listed,
                unreachable_cells@,
                current_coord,
                entries,
                count,
            );
            lemma_joined_reached(&before, maze, current_coord, entries, count, root);
            lemma_joined_reached(&before, maze, current_coord, entries, count, current_coord);
            let grown = ring_with_leaves(rank, entries, count, next);
            assert forall|i: int| 0 <= i < work_queue@.len() implies grown.contains_key(
                #[trigger] work_queue@[i],
            ) by {
                if i < queue_before.len() - 1 {
                    assert(work_queue@[i] == queue_before[i]);
                } else {
                    let j = i - (queue_before.len() - 1);
                    assert(work_queue@[i] == entries[j].1);
                    assert(ring_is_leaf(entries, count, entries[j].1));
                }
            }
            if count == 0 {
                assert(grown =~= rank);
                assert(work_queue@ =~= queue_before.drop_last());
            }
            rank = grown;
            next = next + 1;
        }
    }
    Ghost((rank, next))
}

/// Finds, in the order of the list, the first unreached cell that lies next to a
/// reached one, connects it to the first such neighbour and puts it on the queue.
fn adopt_stray(
    maze: &mut CircleMaze,
    unreachable_cells: &mut Vec<Coord>,
    work_queue: &mut VecDeque<Coord>,
    Ghost(rank): Ghost<Map<Coord, nat>>,
    Ghost(root): Ghost<Coord>,
    Ghost(next): Ghost<nat>,
) -> (state: Ghost<(Map<Coord, nat>, nat)>)
    requires
        ring_growth(old(maze), rank, root, next, old(unreachable_cells)@),
        old(unreachable_cells)@.len() > 0,
        old(work_queue)@.len() == 0,
        old(maze).reached(root),
    ensures
        ring_growth(final(maze), state@.0, root, state@.1, final(unreachable_cells)@),
        final(work_queue)@.len() == 1,
        state@.0.contains_key(final(work_queue)@[0]),
        final(maze).reached(root),
        final(maze).height == old(maze).height,
        final(unreachable_cells)@.len() + 1 == old(unreachable_cells)@.len(),
{
    let mut i: usize = 0;
    while i < unreachable_cells.len()
        invariant
            *maze == *old(maze),
            unreachable_cells@ == old(unreachable_cells)@,
            work_queue@ == old(work_queue)@,
            work_queue@.len() == 0,
            ring_growth(maze, rank, root, next, unreachable_cells@),
            maze.reached(root),
            i <= unreachable_cells@.len(),
            forall|j: int, dir: CircleMazeCellDirection|
                0 <= j < i ==> !#[trigger] maze.offers(
                    unreachable_cells@[j],
                    CellReachType::ReachableOnly,
                    dir,
                ),
        decreases unreachable_cells@.len() - i,
    {
        let unreachable_cell = unreachable_cells[i];
        proof {
            lemma_growth_listed(maze, rank, root, next, unreachable_cells@, i as int);
            lemma_growth_facts(maze, rank, root, next, unreachable_cells@);
        }
        let neighbour_coords = maze.neighbours(unreachable_cell, CellReachType::ReachableOnly);
        if neighbour_coords.len() > 0 {
            let dir = neighbour_coords[0].0;
            let ghost before = *maze;
            proof {
                let e = neighbour_coords@[0];
                assert(maze.offers(unreachable_cell, CellReachType::ReachableOnly, e.0));
                maze.lemma_neighbour_back(unreachable_cell, dir);
                lemma_growth_cell(maze, rank, root, next, unreachable_cells@, e.1);
            }
            carve(
                maze,
                unreachable_cells,
                unreachable_cell,
                dir,
                unreachable_cell,
                Ghost(rank),
                Ghost(root),
                Ghost(next),
            );
            work_queue.push_back(unreachable_cell);
            proof {
                assert(before.in_bounds(root));
            }
            return Ghost((rank.insert(unreachable_cell, next), (next + 1) as nat));
        } else {
            proof {
                assert forall|dir: CircleMazeCellDirection| !#[trigger] maze.offers(
                    unreachable_cell,
                    CellReachType::ReachableOnly,
                    dir,
                ) by {
                    if maze.offers(unreachable_cell, CellReachType::ReachableOnly, dir) {
                        let k = choose|k: int|
                            0 <= k < neighbour_coords@.len() && (#[trigger] neighbour_coords@[k]).0
                                == dir;
                    }
                }
            }
        }
        i = i + 1;
    }
    proof {
        // The grid is connected, so some unreached cell lies next to the tree.
        lemma_growth_facts(maze, rank, root, next, unreachable_cells@);
        lemma_growth_listed(maze, rank, root, next, unreachable_cells@, 0);
        let at = lemma_frontier(maze, rank, unreachable_cells@[0], root);
        lemma_growth_cell(maze, rank, root, next, unreachable_cells@, at.0);
        maze.lemma_neighbour_back(at.0, at.1);
        lemma_growth_cell(
            maze,
            rank,
            root,
            next,
            unreachable_cells@,
            CircleMaze::neighbour_of(at.0, at.1),
        );
        let j = choose|j: int| 0 <= j < unreachable_cells@.len() && unreachable_cells@[j] == at.0;
        assert(maze.offers(unreachable_cells@[j], CellReachType::ReachableOnly, at.1));
        assert(false);
    }
    Ghost((rank, next))
}

impl MazeBuilder {
    /// The randomized growing tree on a ring grid. A stack of cells starts with
    /// `start`; each cell taken from it is connected to one or two of its unreached
    /// neighbours, which go onto the stack. When the stack runs empty while cells
    /// are left, one unreached cell next to a reached one is connected and the work
    /// resumes there.
    pub fn random_circle_maze_creation(maze: &mut CircleMaze, start: Coord, rng: &mut StdRng)
        requires
            old(maze).sound(),
            old(maze).in_bounds(start),
            forall|c: Coord| #[trigger] old(maze).in_bounds(c) ==> !old(maze).reached(c),
        ensures
            final(maze).sound(),
            final(maze).height == old(maze).height,
            final(maze).is_perfect(),
    {
        let mut unreachable_cells = begin_growth(maze, start);
        let ghost mut rank = Map::<Coord, nat>::empty().insert(start, 0);
        let ghost mut next: nat = 1;
        let mut work_queue: VecDeque<Coord> = VecDeque::new();
        work_queue.push_back(start);
        proof {
            assert(work_queue@ =~= seq![start]);
        }
        let state = grow_from_queue(
            maze,
            &mut unreachable_cells,
            &mut work_queue,
            rng,
            Ghost(rank),
            Ghost(start),
            Ghost(next),
        );
        proof {
            rank = state@.0;
            next = state@.1;
        }
        while unreachable_cells.len() > 0
            invariant
                maze.height == old(maze).height,
                ring_growth(maze, rank, start, next, unreachable_cells@),
                work_queue@.len() == 0,
                maze.reached(start) || unreachable_cells@.len() == 0,
            decreases unreachable_cells@.len(),
        {
            let adopted = adopt_stray(
                maze,
                &mut unreachable_cells,
                &mut work_queue,
                Ghost(rank),
                Ghost(start),
                Ghost(next),
            );
            let state = grow_from_queue(
                maze,
                &mut unreachable_cells,
                &mut work_queue,
                rng,
                Ghost(adopted@.0),
                Ghost(start),
                Ghost(adopted@.1),
            );
            proof {
                rank = state@.0;
                next = state@.1;
            }
        }
        proof {
            lemma_growth_facts(maze, rank, start, next, unreachable_cells@);
            maze.lemma_spanning_tree_is_perfect(rank, start);
        }
    }
}

} // verus!
