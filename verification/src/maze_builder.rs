use crate::maze::{lemma_index_in_range, lemma_index_injective, neighbour_of, Maze};
use crate::pair::Pair;
use crate::util::{opposite, Coord, EAST, NORTH, SOUTH, WEST};
use vstd::prelude::*;

verus! {

/// The carving algorithms. Each starts from a grid in which every wall stands.
pub struct MazeBuilder;

/// The state of an algorithm that grows a tree from `root`: the open walls form a
/// tree on the ranked cells, every rank is below `next`, `unreached` lists the cells
/// that are not ranked yet, each once, and no cell but the root has been marked.
#[verifier::opaque]
pub open spec fn growth(
    maze: &Maze,
    rank: Map<Coord, nat>,
    root: Coord,
    next: nat,
    unreached: Seq<Coord>,
) -> bool {
    &&& maze.tree_on(rank, root)
    &&& forall|c: Coord| #[trigger] rank.contains_key(c) ==> rank[c] < next
    &&& unreached.no_duplicates()
    &&& forall|i: int|
        0 <= i < unreached.len() ==> maze.in_bounds(#[trigger] unreached[i])
            && !rank.contains_key(unreached[i])
    &&& forall|c: Coord|
        maze.in_bounds(c) && !#[trigger] rank.contains_key(c) ==> unreached.contains(c)
    &&& forall|c: Coord| maze.in_bounds(c) && #[trigger] maze.marked_at(c) ==> c == root
}

/// What the state of a growing tree says as a whole.
pub(crate) proof fn lemma_growth_facts(
    maze: &Maze,
    rank: Map<Coord, nat>,
    root: Coord,
    next: nat,
    unreached: Seq<Coord>,
)
    requires
        growth(maze, rank, root, next, unreached),
    ensures
        maze.tree_on(rank, root),
        maze.wf(),
        maze.enclosed(),
        maze.in_bounds(root),
        rank.contains_key(root),
        unreached.no_duplicates(),
        unreached.len() == 0 ==> maze.all_ranked(rank),
        unreached.len() > 0 ==> maze.width * maze.height >= 2,
{
    reveal(growth);
    maze.lemma_tree_enclosed(rank, root);
    if unreached.len() == 0 {
        assert forall|c: Coord| maze.in_bounds(c) implies #[trigger] rank.contains_key(c) by {
            if !rank.contains_key(c) {
                assert(unreached.contains(c));
            }
        }
    } else {
        let two = seq![root, unreached[0]];
        assert(maze.in_bounds(unreached[0]) && !rank.contains_key(unreached[0]));
        maze.lemma_distinct_cells_bounded(two);
    }
}

/// What the state of a growing tree says of one cell: it is listed as unreached
/// exactly when it is not ranked; a reached cell is ranked; and a ranked cell other
/// than the root is reached.
pub(crate) proof fn lemma_growth_cell(
    maze: &Maze,
    rank: Map<Coord, nat>,
    root: Coord,
    next: nat,
    unreached: Seq<Coord>,
    c: Coord,
)
    requires
        growth(maze, rank, root, next, unreached),
        maze.in_bounds(c),
    ensures
        unreached.contains(c) <==> !rank.contains_key(c),
        maze.reached(c) ==> rank.contains_key(c),
        rank.contains_key(c) && c != root ==> maze.reached(c),
        rank.contains_key(c) ==> rank[c] < next,
{
    reveal(growth);
    reveal(Maze::tree_on);
    if maze.reached(c) {
        if maze.marked_at(c) {
        } else {
            let dir: usize = if maze.wall_open(c, NORTH) {
                NORTH
            } else if maze.wall_open(c, EAST) {
                EAST
            } else if maze.wall_open(c, SOUTH) {
                SOUTH
            } else {
                WEST
            };
            assert(maze.wall_open(c, dir));
        }
    }
    if rank.contains_key(c) && c != root {
        assert(maze.has_parent(rank, c));
    }
}

/// A ranked cell lies in the grid.
pub(crate) proof fn lemma_growth_ranked(
    maze: &Maze,
    rank: Map<Coord, nat>,
    root: Coord,
    next: nat,
    unreached: Seq<Coord>,
    c: Coord,
)
    requires
        growth(maze, rank, root, next, unreached),
        rank.contains_key(c),
    ensures
        maze.in_bounds(c),
{
    reveal(growth);
    reveal(Maze::tree_on);
}

/// A cell that is listed as unreached lies in the grid and is not ranked.
pub(crate) proof fn lemma_growth_listed(
    maze: &Maze,
    rank: Map<Coord, nat>,
    root: Coord,
    next: nat,
    unreached: Seq<Coord>,
    i: int,
)
    requires
        growth(maze, rank, root, next, unreached),
        0 <= i < unreached.len(),
    ensures
        maze.in_bounds(unreached[i]),
        !rank.contains_key(unreached[i]),
{
    reveal(growth);
}

/// A grid with more than one cell has a cell next to each of its cells.
pub(crate) proof fn lemma_some_neighbour(maze: &Maze, c: Coord) -> (dir: usize)
    requires
        maze.in_bounds(c),
        maze.width * maze.height >= 2,
    ensures
        dir < 4,
        maze.has_neighbour(c, dir),
{
    if maze.width >= 2 {
        if c.x > 0 {
            WEST
        } else {
            EAST
        }
    } else {
        assert(maze.width == 1);
        assert(maze.height >= 2) by (nonlinear_arith)
            requires
                maze.width == 1,
                maze.width * maze.height >= 2,
        ;
        if c.y > 0 {
            NORTH
        } else {
            SOUTH
        }
    }
}

/// While a cell is not ranked, the maze is not connected: that cell has no passage.
pub(crate) proof fn lemma_unranked_cell_is_cut_off(
    maze: &Maze,
    rank: Map<Coord, nat>,
    root: Coord,
    c: Coord,
)
    requires
        maze.tree_on(rank, root),
        maze.in_bounds(c),
        !rank.contains_key(c),
    ensures
        !maze.joined(c, root),
        !maze.is_connected(),
{
    maze.lemma_tree_enclosed(rank, root);
    if maze.joined(c, root) {
        let w = choose|w: Seq<Coord>| maze.walk_between(w, c, root);
        assert(w.len() >= 2);
        assert(maze.linked(w[0int], w[0int + 1]));
        let dir = maze.lemma_side_of(w[0], w[1]);
        maze.lemma_tree_passage(rank, root, c, dir);
    }
}

/// The grid itself is connected: between a ranked cell and a cell that is not
/// ranked, some cell that is not ranked lies next to a ranked one.
pub(crate) proof fn lemma_frontier(maze: &Maze, rank: Map<Coord, nat>, a: Coord, b: Coord) -> (at: (
    Coord,
    usize,
))
    requires
        maze.in_bounds(a),
        maze.in_bounds(b),
        !rank.contains_key(a),
        rank.contains_key(b),
    ensures
        maze.in_bounds(at.0),
        !rank.contains_key(at.0),
        at.1 < 4,
        maze.has_neighbour(at.0, at.1),
        rank.contains_key(neighbour_of(at.0, at.1)),
    decreases
            (if a.x < b.x {
                b.x - a.x
            } else {
                a.x - b.x
            }) + (if a.y < b.y {
                b.y - a.y
            } else {
                a.y - b.y
            }),
{
    let dir: usize = if a.x < b.x {
        EAST
    } else if a.x > b.x {
        WEST
    } else if a.y < b.y {
        SOUTH
    } else {
        NORTH
    };
    assert(a != b);
    let step = neighbour_of(a, dir);
    if rank.contains_key(step) {
        (a, dir)
    } else {
        lemma_frontier(maze, rank, step, b)
    }
}

impl MazeBuilder {
    /// All cells of the grid, row by row.
    pub fn generate_unreachable_cells(maze: &Maze) -> (cells: Vec<Coord>)
        requires
            maze.width * maze.height <= usize::MAX,
        ensures
            cells@.no_duplicates(),
            cells@.len() == maze.width * maze.height,
            forall|i: int| 0 <= i < cells@.len() ==> maze.in_bounds(#[trigger] cells@[i]),
            forall|c: Coord| maze.in_bounds(c) ==> cells@.contains(c),
    {
        let mut cells: Vec<Coord> = Vec::new();
        let mut y: usize = 0;
        while y < maze.height
            invariant
                y <= maze.height,
                maze.width * maze.height <= usize::MAX,
                cells@.len() == y * maze.width,
                forall|i: int|
                    0 <= i < cells@.len() ==> maze.in_bounds(#[trigger] cells@[i])
                        && maze.cell_index(cells@[i]) == i,
            decreases maze.height - y,
        {
            let mut x: usize = 0;
            while x < maze.width
                invariant
                    y < maze.height,
                    x <= maze.width,
                    maze.width * maze.height <= usize::MAX,
                    cells@.len() == y * maze.width + x,
                    forall|i: int|
                        0 <= i < cells@.len() ==> maze.in_bounds(#[trigger] cells@[i])
                            && maze.cell_index(cells@[i]) == i,
                decreases maze.width - x,
            {
                cells.push(Pair::new(x, y));
                x = x + 1;
            }
            proof {
                assert(y * maze.width + maze.width == (y + 1) * maze.width) by (nonlinear_arith);
            }
            y = y + 1;
        }
        proof {
            assert(maze.height * maze.width == maze.width * maze.height) by (nonlinear_arith);
            assert forall|i: int, j: int|
                0 <= i < cells@.len() && 0 <= j < cells@.len() && i != j implies cells@[i]
                != cells@[j] by {
                assert(maze.cell_index(cells@[i]) == i);
                assert(maze.cell_index(cells@[j]) == j);
            }
            assert forall|c: Coord| maze.in_bounds(c) implies cells@.contains(c) by {
                lemma_index_in_range(
                    maze.width as int,
                    maze.height as int,
                    c.x as int,
                    c.y as int,
                );
                let i = maze.cell_index(c);
                assert(maze.in_bounds(cells@[i]) && maze.cell_index(cells@[i]) == i);
                lemma_index_injective(
                    maze.width as int,
                    c.x as int,
                    c.y as int,
                    cells@[i].x as int,
                    cells@[i].y as int,
                );
            }
        }
        cells
    }
}

/// Takes `coord` out of a list that names no cell twice.
pub fn remove_cell(list: &mut Vec<Coord>, coord: Coord) -> (removed: bool)
    requires
        old(list)@.no_duplicates(),
    ensures
        final(list)@.no_duplicates(),
        removed == old(list)@.contains(coord),
        final(list)@.len() == old(list)@.len() - if removed {
            1int
        } else {
            0int
        },
        forall|c: Coord| final(list)@.contains(c) <==> old(list)@.contains(c) && c != coord,
{
    let mut i: usize = 0;
    while i < list.len()
        invariant
            i <= list@.len(),
            list@ == old(list)@,
            list@.no_duplicates(),
            forall|k: int| 0 <= k < i ==> list@[k] != coord,
        decreases list@.len() - i,
    {
        if list[i] == coord {
            let ghost before = list@;
            list.remove(i);
            proof {
                assert(before[i as int] == coord);
                before.remove_ensures(i as int);
                assert forall|a: int, b: int|
                    0 <= a < list@.len() && 0 <= b < list@.len() && a != b implies list@[a]
                    != list@[b] by {
                    let a0 = if a < i as int { a } else { a + 1 };
                    let b0 = if b < i as int { b } else { b + 1 };
                    assert(list@[a] == before[a0] && list@[b] == before[b0]);
                }
                assert forall|c: Coord| list@.contains(c) <==> before.contains(c) && c
                    != coord by {
                    if list@.contains(c) {
                        let a = choose|a: int| 0 <= a < list@.len() && list@[a] == c;
                        let a0 = if a < i as int { a } else { a + 1 };
                        assert(before[a0] == c);
                    }
                    if before.contains(c) && c != coord {
                        let a0 = choose|a0: int| 0 <= a0 < before.len() && before[a0] == c;
                        let a = if a0 < i as int { a0 } else { a0 - 1 };
                        assert(list@[a] == c);
                    }
                }
            }
            return true;
        }
        i = i + 1;
    }
    false
}

/// Whether the list names `coord`.
pub fn contains_cell(list: &Vec<Coord>, coord: Coord) -> (found: bool)
    ensures
        found == list@.contains(coord),
{
    let mut i: usize = 0;
    while i < list.len()
        invariant
            i <= list@.len(),
            forall|k: int| 0 <= k < i ==> list@[k] != coord,
        decreases list@.len() - i,
    {
        if list[i] == coord {
            return true;
        }
        i = i + 1;
    }
    false
}

/// The state after the wall between a ranked cell and the cell `fresh`, which was
/// not ranked, has been opened and `fresh` has left the list of unreached cells.
pub(crate) proof fn lemma_growth_step(
    before: &Maze,
    after: &Maze,
    rank: Map<Coord, nat>,
    root: Coord,
    next: nat,
    listed: Seq<Coord>,
    left: Seq<Coord>,
    from: Coord,
    dir: usize,
    fresh: Coord,
)
    requires
        growth(before, rank, root, next, listed),
        before.in_bounds(from),
        before.has_neighbour(from, dir),
        rank.contains_key(from) != rank.contains_key(neighbour_of(from, dir)),
        fresh == if rank.contains_key(from) {
            neighbour_of(from, dir)
        } else {
            from
        },
        before.opened_between(after, from, dir),
        left.no_duplicates(),
        forall|c: Coord| left.contains(c) <==> listed.contains(c) && c != fresh,
    ensures
        growth(after, rank.insert(fresh, next), root, next + 1, left),
{
    reveal(growth);
    before.lemma_neighbour_back(from, dir);
    before.lemma_attach(after, rank, root, next, from, dir);
    let grown = rank.insert(fresh, next);
    assert forall|i: int| 0 <= i < left.len() implies after.in_bounds(#[trigger] left[i])
        && !grown.contains_key(left[i]) by {
        assert(left.contains(left[i]));
        let k = choose|k: int| 0 <= k < listed.len() && listed[k] == left[i];
        assert(before.in_bounds(listed[k]));
    }
    assert forall|c: Coord|
        after.in_bounds(c) && !#[trigger] grown.contains_key(c) implies left.contains(c) by {
        assert(!rank.contains_key(c));
        assert(listed.contains(c));
    }
    assert forall|c: Coord| after.in_bounds(c) && #[trigger] after.marked_at(c) implies c
        == root by {
        assert(before.in_bounds(c));
        assert(before.marked_at(c));
    }
}

/// Opens the wall between `from` and its neighbour on the side `dir`. One of the two
/// cells belongs to the tree, the other, `fresh`, joins it.
pub(crate) fn carve(
    maze: &mut Maze,
    unreached: &mut Vec<Coord>,
    from: Coord,
    dir: usize,
    fresh: Coord,
    Ghost(rank): Ghost<Map<Coord, nat>>,
    Ghost(root): Ghost<Coord>,
    Ghost(next): Ghost<nat>,
)
    requires
        growth(old(maze), rank, root, next, old(unreached)@),
        old(maze).in_bounds(from),
        dir < 4,
        old(maze).has_neighbour(from, dir),
        rank.contains_key(from) != rank.contains_key(neighbour_of(from, dir)),
        fresh == if rank.contains_key(from) {
            neighbour_of(from, dir)
        } else {
            from
        },
    ensures
        growth(final(maze), rank.insert(fresh, next), root, next + 1, final(unreached)@),
        final(unreached)@.len() + 1 == old(unreached)@.len(),
        old(maze).opened_between(final(maze), from, dir),
        forall|c: Coord| final(unreached)@.contains(c) <==> old(unreached)@.contains(c) && c != fresh,
{
    proof {
        lemma_growth_facts(old(maze), rank, root, next, old(unreached)@);
        old(maze).lemma_neighbour_back(from, dir);
        lemma_growth_cell(old(maze), rank, root, next, old(unreached)@, fresh);
        // The fresh cell has no open wall, so the wall between the two stands.
        old(maze).lemma_wall_symmetry(from, dir);
        assert(Pair { x: from.x, y: from.y } == from);
    }
    maze.connect_cells(from.x, from.y, dir);
    remove_cell(unreached, fresh);
    proof {
        assert(Pair { x: from.x, y: from.y } == from);
        lemma_growth_step(
            old(maze),
            maze,
            rank,
            root,
            next,
            old(unreached)@,
            unreached@,
            from,
            dir,
            fresh,
        );
    }
}

/// Once a wall is open the cell stays reached.
pub(crate) proof fn lemma_stays_reached(before: &Maze, after: &Maze, from: Coord, dir: usize, c: Coord)
    requires
        before.wf(),
        before.in_bounds(from),
        dir < 4,
        before.opened_between(after, from, dir),
        before.in_bounds(c),
    ensures
        before.reached(c) ==> after.reached(c),
        c == from ==> after.reached(c),
        before.has_neighbour(from, dir) && c == neighbour_of(from, dir) ==> after.reached(c),
        c != from && !(before.has_neighbour(from, dir) && c == neighbour_of(from, dir)) ==> (
        after.reached(c) == before.reached(c)),
{
    assert(after.wall_open(c, NORTH) == (before.wall_open(c, NORTH) || (c == from && NORTH == dir)
        || (before.has_neighbour(from, dir) && c == neighbour_of(from, dir) && NORTH == opposite(
        dir,
    ))));
    assert(after.wall_open(c, EAST) == (before.wall_open(c, EAST) || (c == from && EAST == dir) || (
    before.has_neighbour(from, dir) && c == neighbour_of(from, dir) && EAST == opposite(dir))));
    assert(after.wall_open(c, SOUTH) == (before.wall_open(c, SOUTH) || (c == from && SOUTH == dir)
        || (before.has_neighbour(from, dir) && c == neighbour_of(from, dir) && SOUTH == opposite(
        dir,
    ))));
    assert(after.wall_open(c, WEST) == (before.wall_open(c, WEST) || (c == from && WEST == dir) || (
    before.has_neighbour(from, dir) && c == neighbour_of(from, dir) && WEST == opposite(dir))));
    assert(after.marked_at(c) == before.marked_at(c));
}

/// The state in which a tree begins to grow: a grid of standing walls, the root
/// ranked, every other cell listed.
pub(crate) proof fn lemma_growth_begins(maze: &Maze, root: Coord, all: Seq<Coord>, listed: Seq<Coord>)
    requires
        maze.wf(),
        maze.in_bounds(root),
        forall|c: Coord, dir: usize|
            maze.in_bounds(c) && dir < 4 ==> !#[trigger] maze.wall_open(c, dir),
        forall|c: Coord| maze.in_bounds(c) && #[trigger] maze.marked_at(c) ==> c == root,
        forall|i: int| 0 <= i < all.len() ==> maze.in_bounds(#[trigger] all[i]),
        forall|c: Coord| maze.in_bounds(c) ==> all.contains(c),
        listed.no_duplicates(),
        forall|c: Coord| listed.contains(c) <==> all.contains(c) && c != root,
    ensures
        growth(maze, Map::<Coord, nat>::empty().insert(root, 0), root, 1, listed),
{
    reveal(growth);
    maze.lemma_tree_begins(root);
    let rank = Map::<Coord, nat>::empty().insert(root, 0);
    assert forall|i: int| 0 <= i < listed.len() implies maze.in_bounds(#[trigger] listed[i])
        && !rank.contains_key(listed[i]) by {
        assert(listed.contains(listed[i]));
        let k = choose|k: int| 0 <= k < all.len() && all[k] == listed[i];
        assert(maze.in_bounds(all[k]));
    }
}

/// Lists the cells that a tree rooted at `start` has yet to reach.
pub(crate) fn begin_growth(maze: &Maze, start: Coord) -> (unreached: Vec<Coord>)
    requires
        maze.wf(),
        maze.in_bounds(start),
        forall|c: Coord, dir: usize|
            maze.in_bounds(c) && dir < 4 ==> !#[trigger] maze.wall_open(c, dir),
        forall|c: Coord| maze.in_bounds(c) && #[trigger] maze.marked_at(c) ==> c == start,
    ensures
        growth(maze, Map::<Coord, nat>::empty().insert(start, 0), start, 1, unreached@),
        unreached@.len() + 1 == maze.width * maze.height,
{
    assert(maze.cells@.len() == maze.cells.len());
    let mut unreached = MazeBuilder::generate_unreachable_cells(maze);
    let ghost all = unreached@;
    remove_cell(&mut unreached, start);
    proof {
        lemma_growth_begins(maze, start, all, unreached@);
    }
    unreached
}

/// What a finished or an abandoned run leaves behind.
pub(crate) proof fn lemma_growth_ends(
    maze: &Maze,
    rank: Map<Coord, nat>,
    root: Coord,
    next: nat,
    unreached: Seq<Coord>,
)
    requires
        growth(maze, rank, root, next, unreached),
    ensures
        maze.wf(),
        maze.enclosed(),
        maze.is_acyclic(),
        maze.is_perfect() == (unreached.len() == 0),
        forall|c: Coord| maze.in_bounds(c) && #[trigger] maze.reached(c) ==> maze.joined(root, c),
{
    lemma_growth_facts(maze, rank, root, next, unreached);
    maze.lemma_tree_acyclic(rank, root);
    assert forall|c: Coord| maze.in_bounds(c) && #[trigger] maze.reached(c) implies maze.joined(
        root,
        c,
    ) by {
        lemma_growth_cell(maze, rank, root, next, unreached, c);
        maze.lemma_joined_to_root(rank, root, c);
        maze.lemma_walk_single(root);
        maze.lemma_joined_via(root, root, c);
    }
    if unreached.len() == 0 {
        maze.lemma_spanning_tree_is_perfect(rank, root);
    } else {
        lemma_growth_listed(maze, rank, root, next, unreached, 0);
        lemma_unranked_cell_is_cut_off(maze, rank, root, unreached[0]);
    }
}

} // verus!
