use crate::maze::{neighbour_of, Maze};
use crate::util::{opposite, Coord, EAST, NORTH, SOUTH, WEST};
use std::collections::VecDeque;
use vstd::prelude::*;

verus! {

/// Breadth-first search over the passages of a rectangular maze.
pub struct Solver;

/// The entry of a distance map at `c`.
pub open spec fn dist_at(map: Seq<Vec<i32>>, c: Coord) -> int {
    map[c.y as int]@[c.x as int] as int
}

/// The map has one row for each row of the grid and one entry for each cell.
pub open spec fn map_shaped(maze: &Maze, map: Seq<Vec<i32>>) -> bool {
    &&& map.len() == maze.height
    &&& forall|y: int| 0 <= y < map.len() ==> (#[trigger] map[y])@.len() == maze.width
}

/// The passage on the side `dir` of `c` leads one step closer to the start.
pub open spec fn steps_back(maze: &Maze, map: Seq<Vec<i32>>, c: Coord, dir: usize) -> bool {
    maze.passage(c, dir) && dist_at(map, neighbour_of(c, dir)) == dist_at(map, c) - 1
}

/// Some passage of `c` leads one step closer to the start.
pub open spec fn has_way_back(maze: &Maze, map: Seq<Vec<i32>>, c: Coord) -> bool {
    ||| steps_back(maze, map, c, NORTH)
    ||| steps_back(maze, map, c, EAST)
    ||| steps_back(maze, map, c, SOUTH)
    ||| steps_back(maze, map, c, WEST)
}

/// What a search from `start` has established once every cell closer to `start`
/// than `depth` steps has been expanded: only `start` is at distance 0, every other
/// visited cell has a way back, and a passage out of an expanded cell leads to a
/// visited cell at most one step further out. `-1` stands for "not visited".
#[verifier::opaque]
pub open spec fn levels_ok(maze: &Maze, start: Coord, map: Seq<Vec<i32>>, depth: int) -> bool {
    &&& map_shaped(maze, map)
    &&& maze.in_bounds(start)
    &&& dist_at(map, start) == 0
    &&& forall|c: Coord|
        maze.in_bounds(c) ==> #[trigger] dist_at(map, c) >= -1 && (dist_at(map, c) == 0 ==> c
            == start)
    &&& forall|c: Coord|
        maze.in_bounds(c) && #[trigger] dist_at(map, c) > 0 ==> has_way_back(maze, map, c)
    &&& forall|c: Coord, dir: usize|
        #[trigger] maze.passage(c, dir) && 0 <= dist_at(map, c) < depth ==> 0 <= dist_at(
            map,
            neighbour_of(c, dir),
        ) <= dist_at(map, c) + 1
}

/// The map gives, for every cell, the number of steps of the shortest walk from
/// `start`, and `-1` for the cells that no walk from `start` reaches.
pub open spec fn is_distance_map(maze: &Maze, start: Coord, map: Seq<Vec<i32>>) -> bool {
    &&& map_shaped(maze, map)
    &&& forall|c: Coord|
        maze.in_bounds(c) ==> if maze.joined(start, c) {
            maze.shortest(start, c, #[trigger] dist_at(map, c))
        } else {
            dist_at(map, c) == -1
        }
}

/// The state of a search in progress. `order` lists the visited cells as they were
/// found; the first `head` of them have been expanded.
#[verifier::opaque]
pub open spec fn search_inv(
    maze: &Maze,
    start: Coord,
    map: Seq<Vec<i32>>,
    order: Seq<Coord>,
    head: int,
) -> bool {
    &&& map_shaped(maze, map)
    &&& maze.wf()
    &&& order.len() >= 1
    &&& order[0] == start
    &&& 0 <= head <= order.len()
    &&& order.no_duplicates()
    &&& forall|i: int| 0 <= i < order.len() ==> maze.in_bounds(#[trigger] order[i])
    &&& forall|c: Coord|
        maze.in_bounds(c) ==> #[trigger] dist_at(map, c) >= -1 && (dist_at(map, c) != -1
            ==> order.contains(c))
    &&& forall|i: int|
        0 <= i < order.len() ==> 0 <= dist_at(map, #[trigger] order[i]) <= i && (i > 0 ==> dist_at(
            map,
            order[i],
        ) > 0)
    &&& forall|i: int, j: int|
        0 <= i <= j < order.len() ==> dist_at(map, #[trigger] order[i]) <= dist_at(
            map,
            #[trigger] order[j],
        )
    &&& head < order.len() ==> dist_at(map, order.last()) <= dist_at(map, order[head]) + 1
    &&& forall|i: int| 0 < i < order.len() ==> has_way_back(maze, map, #[trigger] order[i])
    &&& forall|i: int, dir: usize|
        0 <= i < head && #[trigger] maze.passage(#[trigger] order[i], dir) ==> expanded_towards(
            maze,
            map,
            order[i],
            dir,
        )
}

/// The neighbour of `c` on the side `dir` has been visited and lies at most one step
/// further from the start than `c`.
pub open spec fn expanded_towards(maze: &Maze, map: Seq<Vec<i32>>, c: Coord, dir: usize) -> bool {
    0 <= dist_at(map, neighbour_of(c, dir)) <= dist_at(map, c) + 1
}

/// The map after the entry at `at` has been set to `value`.
pub open spec fn map_updated(
    maze: &Maze,
    before: Seq<Vec<i32>>,
    after: Seq<Vec<i32>>,
    at: Coord,
    value: int,
) -> bool {
    &&& map_shaped(maze, after)
    &&& forall|c: Coord|
        maze.in_bounds(c) ==> #[trigger] dist_at(after, c) == if c == at {
            value
        } else {
            dist_at(before, c)
        }
}

/// A passage seen from its other end.
proof fn lemma_passage_back(maze: &Maze, c: Coord, dir: usize)
    requires
        maze.wf(),
        maze.passage(c, dir),
    ensures
        maze.passage(neighbour_of(c, dir), opposite(dir)),
        neighbour_of(neighbour_of(c, dir), opposite(dir)) == c,
        maze.in_bounds(neighbour_of(c, dir)),
        neighbour_of(c, dir) != c,
        dir < 4,
{
    maze.lemma_neighbour_back(c, dir);
    maze.lemma_wall_symmetry(c, dir);
}

/// A way back stays one when another cell's entry changes from "not visited".
proof fn lemma_way_back_kept(
    maze: &Maze,
    before: Seq<Vec<i32>>,
    after: Seq<Vec<i32>>,
    at: Coord,
    value: int,
    c: Coord,
)
    requires
        maze.wf(),
        map_shaped(maze, before),
        map_updated(maze, before, after, at, value),
        maze.in_bounds(at),
        dist_at(before, at) == -1,
        maze.in_bounds(c),
        c != at,
        dist_at(before, c) > 0,
        has_way_back(maze, before, c),
    ensures
        has_way_back(maze, after, c),
{
    let dir: usize = if steps_back(maze, before, c, NORTH) {
        NORTH
    } else if steps_back(maze, before, c, EAST) {
        EAST
    } else if steps_back(maze, before, c, SOUTH) {
        SOUTH
    } else {
        WEST
    };
    lemma_passage_back(maze, c, dir);
    assert(dist_at(after, neighbour_of(c, dir)) == dist_at(before, neighbour_of(c, dir)));
    assert(steps_back(maze, after, c, dir));
}

/// Visiting a cell for the first time, from the cell that is being expanded, keeps
/// the state of the search.
proof fn lemma_visit(
    maze: &Maze,
    start: Coord,
    before: Seq<Vec<i32>>,
    after: Seq<Vec<i32>>,
    order: Seq<Coord>,
    head: int,
    dir: usize,
)
    requires
        search_inv(maze, start, before, order, head),
        head < order.len(),
        maze.passage(order[head], dir),
        dist_at(before, neighbour_of(order[head], dir)) == -1,
        map_updated(
            maze,
            before,
            after,
            neighbour_of(order[head], dir),
            dist_at(before, order[head]) + 1,
        ),
    ensures
        search_inv(maze, start, after, order.push(neighbour_of(order[head], dir)), head),
        expanded_towards(maze, after, order[head], dir),
        forall|d: usize|
            maze.passage(order[head], d) && expanded_towards(maze, before, order[head], d)
                ==> expanded_towards(maze, after, order[head], d),
{
    reveal(search_inv);
    let cur = order[head];
    let next = neighbour_of(cur, dir);
    let grown = order.push(next);
    let value = dist_at(before, cur) + 1;
    lemma_passage_back(maze, cur, dir);
    assert(maze.in_bounds(cur));
    assert(!order.contains(next)) by {
        if order.contains(next) {
            let i = choose|i: int| 0 <= i < order.len() && order[i] == next;
            assert(dist_at(before, order[i]) >= 0);
        }
    }
    assert forall|i: int| 0 <= i < order.len() implies #[trigger] grown[i] == order[i] && dist_at(
        after,
        order[i],
    ) == dist_at(before, order[i]) by {
        assert(maze.in_bounds(order[i]));
        assert(order.contains(order[i]));
    }
    assert(grown.no_duplicates()) by {
        assert forall|i: int, j: int|
            0 <= i < grown.len() && 0 <= j < grown.len() && i != j implies grown[i]
            != grown[j] by {
            if i < order.len() && j < order.len() {
            } else if i < order.len() {
                assert(order.contains(order[i]));
            } else {
                assert(order.contains(order[j]));
            }
        }
    }
    assert forall|c: Coord| maze.in_bounds(c) implies #[trigger] dist_at(after, c) >= -1 && (
    dist_at(after, c) != -1 ==> grown.contains(c)) by {
        if c == next {
            assert(grown[order.len() as int] == next);
        } else if dist_at(before, c) != -1 {
            let i = choose|i: int| 0 <= i < order.len() && order[i] == c;
            assert(grown[i] == c);
        }
    }
    assert(dist_at(after, next) == value);
    assert(dist_at(before, order[head]) <= head);
    assert forall|i: int| 0 <= i < grown.len() implies 0 <= dist_at(after, #[trigger] grown[i])
        <= i && (i > 0 ==> dist_at(after, grown[i]) > 0) by {
        if i < order.len() {
            assert(grown[i] == order[i]);
        }
    }
    assert forall|i: int, j: int| 0 <= i <= j < grown.len() implies dist_at(
        after,
        #[trigger] grown[i],
    ) <= dist_at(after, #[trigger] grown[j]) by {
        if j < order.len() {
            assert(grown[i] == order[i] && grown[j] == order[j]);
        } else if i < order.len() {
            assert(grown[i] == order[i]);
            assert(dist_at(before, order[i]) <= dist_at(before, order[order.len() - 1]));
        }
    }
    assert(dist_at(after, grown.last()) <= dist_at(after, grown[head]) + 1) by {
        assert(grown[head] == order[head]);
    }
    assert forall|i: int| 0 < i < grown.len() implies has_way_back(
        maze,
        after,
        #[trigger] grown[i],
    ) by {
        if i < order.len() {
            assert(grown[i] == order[i]);
            assert(has_way_back(maze, before, order[i]));
            assert(order.contains(order[i]));
            lemma_way_back_kept(maze, before, after, next, value, order[i]);
        } else {
            assert(grown[i] == next);
            assert(dist_at(after, cur) == dist_at(before, cur));
            assert(steps_back(maze, after, next, opposite(dir)));
        }
    }
    assert forall|i: int, d: usize|
        0 <= i < head && #[trigger] maze.passage(#[trigger] grown[i], d) implies expanded_towards(
        maze,
        after,
        grown[i],
        d,
    ) by {
        assert(grown[i] == order[i]);
        assert(expanded_towards(maze, before, order[i], d));
        lemma_passage_back(maze, order[i], d);
        assert(dist_at(before, neighbour_of(order[i], d)) != -1);
    }
    assert forall|d: usize|
        maze.passage(order[head], d) && expanded_towards(
            maze,
            before,
            order[head],
            d,
        ) implies expanded_towards(maze, after, order[head], d) by {
        lemma_passage_back(maze, cur, d);
    }
}

/// The state in which a search begins.
proof fn lemma_search_begins(maze: &Maze, start: Coord, blank: Seq<Vec<i32>>, map: Seq<Vec<i32>>)
    requires
        maze.wf(),
        maze.in_bounds(start),
        map_shaped(maze, blank),
        forall|c: Coord| maze.in_bounds(c) ==> #[trigger] dist_at(blank, c) == -1,
        map_updated(maze, blank, map, start, 0),
    ensures
        search_inv(maze, start, map, seq![start], 0),
{
    reveal(search_inv);
    let order = seq![start];
    assert forall|c: Coord| maze.in_bounds(c) implies #[trigger] dist_at(map, c) >= -1 && (dist_at(
        map,
        c,
    ) != -1 ==> order.contains(c)) by {
        if c == start {
            assert(order[0] == start);
        }
    }
}

/// What the state of a search says of the cell at the head of the queue.
proof fn lemma_search_head(
    maze: &Maze,
    start: Coord,
    map: Seq<Vec<i32>>,
    order: Seq<Coord>,
    head: int,
)
    requires
        search_inv(maze, start, map, order, head),
    ensures
        map_shaped(maze, map),
        0 <= head <= order.len() <= maze.width * maze.height,
        head < order.len() ==> maze.in_bounds(order[head]) && 0 <= dist_at(map, order[head])
            <= head,
{
    reveal(search_inv);
    maze.lemma_distinct_cells_bounded(order);
}

/// A neighbour that has been visited before lies at most one step further from the
/// start than the cell under expansion: the queue never spans more than two levels.
proof fn lemma_seen_before(
    maze: &Maze,
    start: Coord,
    map: Seq<Vec<i32>>,
    order: Seq<Coord>,
    head: int,
    dir: usize,
)
    requires
        search_inv(maze, start, map, order, head),
        head < order.len(),
        maze.passage(order[head], dir),
        dist_at(map, neighbour_of(order[head], dir)) != -1,
    ensures
        expanded_towards(maze, map, order[head], dir),
{
    reveal(search_inv);
    let next = neighbour_of(order[head], dir);
    lemma_passage_back(maze, order[head], dir);
    let i = choose|i: int| 0 <= i < order.len() && order[i] == next;
    assert(dist_at(map, order[i]) <= dist_at(map, order.last()));
}

/// Once every passage of the cell under expansion has been looked at, the next cell
/// of the queue can be taken.
proof fn lemma_advance(maze: &Maze, start: Coord, map: Seq<Vec<i32>>, order: Seq<Coord>, head: int)
    requires
        search_inv(maze, start, map, order, head),
        head < order.len(),
        forall|dir: usize|
            dir < 4 && maze.passage(order[head], dir) ==> expanded_towards(
                maze,
                map,
                order[head],
                dir,
            ),
    ensures
        search_inv(maze, start, map, order, head + 1),
{
    reveal(search_inv);
    if head + 1 < order.len() {
        assert(dist_at(map, order[head]) <= dist_at(map, order[head + 1]));
    }
    assert forall|i: int, dir: usize|
        0 <= i < head + 1 && #[trigger] maze.passage(
            #[trigger] order[i],
            dir,
        ) implies expanded_towards(maze, map, order[i], dir) by {
        if i == head {
            assert(dir < 4);
        }
    }
}

/// A search in progress has settled every cell that is closer to the start than the
/// cell at the head of the queue.
proof fn lemma_levels_reached(
    maze: &Maze,
    start: Coord,
    map: Seq<Vec<i32>>,
    order: Seq<Coord>,
    head: int,
    depth: int,
)
    requires
        search_inv(maze, start, map, order, head),
        head < order.len() ==> depth <= dist_at(map, order[head]),
    ensures
        levels_ok(maze, start, map, depth),
{
    reveal(search_inv);
    reveal(levels_ok);
    assert(dist_at(map, order[0]) == 0);
    assert forall|c: Coord| maze.in_bounds(c) implies #[trigger] dist_at(map, c) >= -1 && (dist_at(
        map,
        c,
    ) == 0 ==> c == start) by {
        if dist_at(map, c) == 0 {
            let i = choose|i: int| 0 <= i < order.len() && order[i] == c;
            assert(i > 0 ==> dist_at(map, order[i]) > 0);
        }
    }
    assert forall|c: Coord| maze.in_bounds(c) && #[trigger] dist_at(map, c) > 0 implies has_way_back(
        maze,
        map,
        c,
    ) by {
        let i = choose|i: int| 0 <= i < order.len() && order[i] == c;
        assert(has_way_back(maze, map, order[i]));
    }
    assert forall|c: Coord, dir: usize|
        #[trigger] maze.passage(c, dir) && 0 <= dist_at(map, c) < depth implies 0 <= dist_at(
        map,
        neighbour_of(c, dir),
    ) <= dist_at(map, c) + 1 by {
        let i = choose|i: int| 0 <= i < order.len() && order[i] == c;
        if i >= head {
            assert(dist_at(map, order[head]) <= dist_at(map, order[i]));
        }
        assert(maze.passage(order[i], dir));
        assert(expanded_towards(maze, map, order[i], dir));
    }
}

/// What settled levels say of a single cell.
pub proof fn lemma_levels_at(maze: &Maze, start: Coord, map: Seq<Vec<i32>>, depth: int, c: Coord)
    requires
        levels_ok(maze, start, map, depth),
        maze.in_bounds(c),
    ensures
        map_shaped(maze, map),
        maze.in_bounds(start),
        dist_at(map, c) >= -1,
        dist_at(map, c) == 0 <==> c == start,
        dist_at(map, c) > 0 ==> has_way_back(maze, map, c),
{
    reveal(levels_ok);
}

/// Every visited cell can be walked to from the start in as many steps as its entry says.
pub proof fn lemma_walk_from_start(
    maze: &Maze,
    start: Coord,
    map: Seq<Vec<i32>>,
    depth: int,
    c: Coord,
) -> (w: Seq<Coord>)
    requires
        maze.wf(),
        levels_ok(maze, start, map, depth),
        maze.in_bounds(c),
        dist_at(map, c) >= 0,
    ensures
        maze.walk_between(w, start, c),
        w.len() == dist_at(map, c) + 1,
    decreases dist_at(map, c),
{
    reveal(levels_ok);
    if dist_at(map, c) == 0 {
        maze.lemma_walk_single(c);
        seq![c]
    } else {
        assert(has_way_back(maze, map, c));
        let dir: usize = if steps_back(maze, map, c, NORTH) {
            NORTH
        } else if steps_back(maze, map, c, EAST) {
            EAST
        } else if steps_back(maze, map, c, SOUTH) {
            SOUTH
        } else {
            WEST
        };
        let p = neighbour_of(c, dir);
        lemma_passage_back(maze, c, dir);
        let v = lemma_walk_from_start(maze, start, map, depth, p);
        assert(maze.leads(p, opposite(dir), c));
        maze.lemma_walk_push(v, start, p, c);
        v.push(c)
    }
}

/// What settled levels say of a single link: from a visited cell that is closer to
/// the start than `depth`, it leads to a visited cell at most one step further out.
proof fn lemma_levels_link(
    maze: &Maze,
    start: Coord,
    map: Seq<Vec<i32>>,
    depth: int,
    a: Coord,
    b: Coord,
)
    requires
        levels_ok(maze, start, map, depth),
        maze.linked(a, b),
        0 <= dist_at(map, a) < depth,
    ensures
        0 <= dist_at(map, b) <= dist_at(map, a) + 1,
{
    reveal(levels_ok);
    let dir = maze.lemma_side_of(a, b);
    assert(maze.passage(a, dir));
}

/// A walk from the start cannot reach a cell in fewer steps than its entry says: the
/// cell after `i` steps has been visited and its entry is at most `i`, as far as the
/// search has settled its levels.
pub proof fn lemma_walk_bounds_distance(
    maze: &Maze,
    start: Coord,
    map: Seq<Vec<i32>>,
    depth: int,
    w: Seq<Coord>,
    i: int,
)
    requires
        levels_ok(maze, start, map, depth),
        maze.is_walk(w),
        w[0] == start,
        0 <= i < w.len(),
        i <= depth,
    ensures
        0 <= dist_at(map, w[i]) <= i,
    decreases i,
{
    if i > 0 {
        lemma_walk_bounds_distance(maze, start, map, depth, w, i - 1);
        assert(maze.linked(w[i - 1], w[i - 1 + 1]));
        lemma_levels_link(maze, start, map, depth, w[i - 1], w[i]);
    } else {
        assert(dist_at(map, start) == 0) by {
            reveal(levels_ok);
        }
    }
}

/// A map whose levels are settled to every depth is the distance map.
pub proof fn lemma_levels_give_distances(maze: &Maze, start: Coord, map: Seq<Vec<i32>>)
    requires
        maze.wf(),
        levels_ok(maze, start, map, i32::MAX + 1),
    ensures
        is_distance_map(maze, start, map),
{
    assert(map_shaped(maze, map) && maze.in_bounds(start)) by {
        reveal(levels_ok);
    }
    assert forall|c: Coord| maze.in_bounds(c) implies if maze.joined(start, c) {
        maze.shortest(start, c, #[trigger] dist_at(map, c))
    } else {
        dist_at(map, c) == -1
    } by {
        lemma_levels_at(maze, start, map, i32::MAX + 1, c);
        if dist_at(map, c) >= 0 {
            let v = lemma_walk_from_start(maze, start, map, i32::MAX + 1, c);
            assert(maze.walk_between(v, start, c));
        }
        if maze.joined(start, c) {
            let w = choose|w: Seq<Coord>| maze.walk_between(w, start, c);
            lemma_walk_cannot_be_shorter(maze, start, map, w, c);
            let v = lemma_walk_from_start(maze, start, map, i32::MAX + 1, c);
            assert forall|u: Seq<Coord>| maze.walk_between(u, start, c) implies u.len() >= dist_at(
                map,
                c,
            ) + 1 by {
                lemma_walk_cannot_be_shorter(maze, start, map, u, c);
            }
        }
    }
}

/// With all levels settled, a walk from the start to `c` takes at least as many
/// steps as the entry of `c` says, and `c` has been visited.
proof fn lemma_walk_cannot_be_shorter(
    maze: &Maze,
    start: Coord,
    map: Seq<Vec<i32>>,
    w: Seq<Coord>,
    c: Coord,
)
    requires
        levels_ok(maze, start, map, i32::MAX + 1),
        maze.walk_between(w, start, c),
    ensures
        0 <= dist_at(map, c) <= w.len() - 1,
{
    let n = w.len() - 1;
    if n <= i32::MAX + 1 {
        lemma_walk_bounds_distance(maze, start, map, i32::MAX + 1, w, n);
    } else {
        lemma_walk_bounds_distance(maze, start, map, i32::MAX + 1, w, i32::MAX + 1);
        maze.lemma_walk_in_bounds(w, n);
        let k = (i32::MAX + 1) as int;
        lemma_bounded_spread(maze, start, map, w, k, n);
    }
}

/// Along a walk through visited cells the entries grow by at most one per step.
proof fn lemma_bounded_spread(
    maze: &Maze,
    start: Coord,
    map: Seq<Vec<i32>>,
    w: Seq<Coord>,
    from: int,
    to: int,
)
    requires
        levels_ok(maze, start, map, i32::MAX + 1),
        maze.is_walk(w),
        0 <= from <= to < w.len(),
        0 <= dist_at(map, w[from]),
    ensures
        0 <= dist_at(map, w[to]) <= dist_at(map, w[from]) + (to - from),
    decreases to - from,
{
    if from < to {
        lemma_bounded_spread(maze, start, map, w, from, to - 1);
        assert(maze.linked(w[to - 1], w[to - 1 + 1]));
        lemma_levels_link(maze, start, map, i32::MAX + 1, w[to - 1], w[to]);
    }
}

/// The passage on the side `dir` of `c` leads to a cell one step closer to `start`.
pub open spec fn leads_back(maze: &Maze, start: Coord, c: Coord, dir: usize) -> bool {
    maze.passage(c, dir) && maze.distance(start, neighbour_of(c, dir)) == maze.distance(start, c)
        - 1
}

/// The first side, in the order north, east, south, west, on which a passage of
/// `c` leads one step closer to `start`.
pub open spec fn side_back(maze: &Maze, start: Coord, c: Coord) -> usize {
    if leads_back(maze, start, c, NORTH) {
        NORTH
    } else if leads_back(maze, start, c, EAST) {
        EAST
    } else if leads_back(maze, start, c, SOUTH) {
        SOUTH
    } else {
        WEST
    }
}

/// The walk of `steps` steps from `c` towards `start` that leaves every cell on its
/// first side that leads one step closer.
pub open spec fn walk_back(maze: &Maze, start: Coord, c: Coord, steps: nat) -> Seq<Coord>
    decreases steps,
{
    if steps == 0 {
        seq![c]
    } else {
        seq![c] + walk_back(
            maze,
            start,
            neighbour_of(c, side_back(maze, start, c)),
            (steps - 1) as nat,
        )
    }
}

/// The walk from `start` to `finish` that the solver gives: read backwards, it
/// leaves every cell on the first side, in the order north, east, south, west,
/// on which a passage leads one step closer to `start`.
pub open spec fn solution_walk(maze: &Maze, start: Coord, finish: Coord) -> Seq<Coord> {
    walk_back(maze, start, finish, maze.distance(start, finish) as nat).reverse()
}

/// As far as a search has settled its levels, the entries of its map are the
/// distances from `start`.
pub proof fn lemma_levels_are_distances(
    maze: &Maze,
    start: Coord,
    map: Seq<Vec<i32>>,
    depth: int,
    c: Coord,
)
    requires
        maze.wf(),
        levels_ok(maze, start, map, depth),
        maze.in_bounds(c),
    ensures
        0 <= dist_at(map, c) <= depth + 1 ==> maze.distance(start, c) == dist_at(map, c),
        0 <= maze.distance(start, c) <= depth ==> dist_at(map, c) == maze.distance(start, c),
{
    lemma_levels_at(maze, start, map, depth, c);
    if 0 <= dist_at(map, c) <= depth + 1 {
        let k = dist_at(map, c);
        let v = lemma_walk_from_start(maze, start, map, depth, c);
        assert forall|u: Seq<Coord>| maze.walk_between(u, start, c) implies u.len() >= k + 1 by {
            if u.len() - 1 < k {
                lemma_walk_bounds_distance(maze, start, map, depth, u, u.len() - 1);
            }
        }
        maze.lemma_distance(start, c, k);
    }
    if 0 <= maze.distance(start, c) <= depth {
        let w = choose|w: Seq<Coord>| maze.walk_between(w, start, c);
        let n = maze.lemma_shortest_exists(w, start, c);
        maze.lemma_distance(start, c, n);
        let u = choose|u: Seq<Coord>| maze.walk_between(u, start, c) && u.len() == n + 1;
        lemma_walk_bounds_distance(maze, start, map, depth, u, n);
        let v = lemma_walk_from_start(maze, start, map, depth, c);
    }
}

/// The walk back from a cell that can be walked to takes as many steps as the cell
/// is distant from the start; it ends at the start, and each of its cells is
/// linked to the one before it.
pub proof fn lemma_walk_back(maze: &Maze, start: Coord, c: Coord, steps: nat)
    requires
        maze.wf(),
        maze.in_bounds(start),
        maze.distance(start, c) == steps,
    ensures
        walk_back(maze, start, c, steps).len() == steps + 1,
        walk_back(maze, start, c, steps)[0] == c,
        walk_back(maze, start, c, steps).last() == start,
        forall|i: int|
            0 <= i < steps ==> maze.linked(
                walk_back(maze, start, c, steps)[i + 1],
                #[trigger] walk_back(maze, start, c, steps)[i],
            ),
    decreases steps,
{
    let w = walk_back(maze, start, c, steps);
    if steps == 0 {
        maze.lemma_distance_zero(start, c);
    } else {
        let some = maze.lemma_distance_way_back(start, c);
        assert(leads_back(maze, start, c, some));
        let side = side_back(maze, start, c);
        assert(leads_back(maze, start, c, side));
        let p = neighbour_of(c, side);
        lemma_walk_back(maze, start, p, (steps - 1) as nat);
        let rest = walk_back(maze, start, p, (steps - 1) as nat);
        assert(w == seq![c] + rest) by {
            reveal_with_fuel(walk_back, 2);
        }
        maze.lemma_neighbour_back(c, side);
        maze.lemma_wall_symmetry(c, side);
        assert(maze.leads(p, opposite(side), c));
        assert forall|i: int| 0 <= i < steps implies maze.linked(w[i + 1], #[trigger] w[i]) by {
            if i > 0 {
                assert(maze.linked(rest[i - 1 + 1], rest[i - 1]));
            }
        }
    }
}

/// Between joined cells the solver's walk is a walk from the start to the finish,
/// and it takes as many steps as the finish is distant from the start: no walk
/// between the two is shorter.
pub proof fn lemma_solution_walk(maze: &Maze, start: Coord, finish: Coord)
    requires
        maze.wf(),
        maze.in_bounds(start),
        maze.joined(start, finish),
    ensures
        maze.walk_between(solution_walk(maze, start, finish), start, finish),
        solution_walk(maze, start, finish).len() - 1 == maze.distance(start, finish),
        maze.shortest(start, finish, solution_walk(maze, start, finish).len() - 1),
{
    maze.lemma_distance_of_joined(start, finish);
    let steps = maze.distance(start, finish) as nat;
    lemma_walk_back(maze, start, finish, steps);
    let back = walk_back(maze, start, finish, steps);
    let w = solution_walk(maze, start, finish);
    assert forall|i: int| 0 <= i < w.len() - 1 implies maze.linked(#[trigger] w[i], w[i + 1]) by {
        let k = w.len() - 2 - i;
        assert(maze.linked(back[k + 1], back[k]));
    }
}

/// Some side of a visited cell other than the start leads back.
proof fn lemma_some_side_back(
    maze: &Maze,
    start: Coord,
    map: Seq<Vec<i32>>,
    depth: int,
    here: Coord,
) -> (back: usize)
    requires
        maze.wf(),
        levels_ok(maze, start, map, depth),
        maze.in_bounds(here),
        0 < dist_at(map, here) <= depth + 1,
    ensures
        back < 4,
        leads_back(maze, start, here, back),
{
    lemma_levels_at(maze, start, map, depth, here);
    let back: usize = if steps_back(maze, map, here, NORTH) {
        NORTH
    } else if steps_back(maze, map, here, EAST) {
        EAST
    } else if steps_back(maze, map, here, SOUTH) {
        SOUTH
    } else {
        WEST
    };
    lemma_passage_back(maze, here, back);
    lemma_levels_are_distances(maze, start, map, depth, here);
    lemma_levels_are_distances(maze, start, map, depth, neighbour_of(here, back));
    back
}

/// A walk read backwards stays linked when a cell linked to its last is appended.
proof fn lemma_linked_backwards(maze: &Maze, before: Seq<Coord>, path: Seq<Coord>, current: Coord)
    requires
        before.len() >= 1,
        path == before.push(current),
        maze.linked(current, before.last()),
        forall|i: int| 0 <= i < before.len() - 1 ==> maze.linked(before[i + 1], #[trigger] before[i]),
    ensures
        forall|i: int| 0 <= i < path.len() - 1 ==> maze.linked(path[i + 1], #[trigger] path[i]),
{
    assert forall|i: int| 0 <= i < path.len() - 1 implies maze.linked(
        path[i + 1],
        #[trigger] path[i],
    ) by {
        if i < before.len() - 1 {
            assert(path[i] == before[i]);
            assert(path[i + 1] == before[i + 1]);
        } else {
            assert(path[i] == before.last());
        }
    }
}

/// One step further along the walk back.
proof fn lemma_walk_back_step(
    maze: &Maze,
    start: Coord,
    finish: Coord,
    total: nat,
    before: Seq<Coord>,
    here: Coord,
    current: Coord,
    steps: nat,
)
    requires
        before.len() >= 1,
        before.last() == here,
        steps > 0,
        current == neighbour_of(here, side_back(maze, start, here)),
        walk_back(maze, start, finish, total) == before.drop_last() + walk_back(
            maze,
            start,
            here,
            steps,
        ),
    ensures
        walk_back(maze, start, finish, total) == before.push(current).drop_last() + walk_back(
            maze,
            start,
            current,
            (steps - 1) as nat,
        ),
{
    let rest = walk_back(maze, start, current, (steps - 1) as nat);
    assert(walk_back(maze, start, here, steps) == seq![here] + rest) by {
        reveal_with_fuel(walk_back, 2);
    }
    assert(before.push(current).drop_last() =~= before);
    assert(before =~= before.drop_last() + seq![here]);
    assert(before.drop_last() + (seq![here] + rest) =~= before + rest);
}

/// A shortest walk from `start` to `finish` takes as many steps as the distance map
/// of `start` records for `finish`.
pub proof fn lemma_path_length_is_distance(
    maze: &Maze,
    start: Coord,
    finish: Coord,
    path: Seq<Coord>,
    map: Seq<Vec<i32>>,
)
    requires
        maze.in_bounds(finish),
        is_distance_map(maze, start, map),
        maze.walk_between(path, start, finish),
        maze.shortest(start, finish, path.len() - 1),
    ensures
        path.len() - 1 == dist_at(map, finish),
{
    assert(maze.joined(start, finish));
    assert(maze.shortest(start, finish, dist_at(map, finish)));
    let w = choose|w: Seq<Coord>|
        maze.walk_between(w, start, finish) && w.len() == dist_at(map, finish) + 1;
    assert(w.len() >= path.len() - 1 + 1);
    assert(path.len() >= dist_at(map, finish) + 1);
}

/// A map in which no cell has been visited.
fn new_distance_map(maze: &Maze) -> (map: Vec<Vec<i32>>)
    ensures
        map_shaped(maze, map@),
        forall|c: Coord| maze.in_bounds(c) ==> #[trigger] dist_at(map@, c) == -1,
{
    let mut map: Vec<Vec<i32>> = Vec::new();
    let mut y: usize = 0;
    while y < maze.height
        invariant
            y <= maze.height,
            map@.len() == y,
            forall|r: int| 0 <= r < map@.len() ==> (#[trigger] map@[r])@.len() == maze.width,
            forall|r: int, x: int|
                0 <= r < map@.len() && 0 <= x < maze.width ==> #[trigger] map@[r]@[x] == -1,
        decreases maze.height - y,
    {
        let mut row: Vec<i32> = Vec::new();
        let mut x: usize = 0;
        while x < maze.width
            invariant
                x <= maze.width,
                row@.len() == x,
                forall|k: int| 0 <= k < row@.len() ==> row@[k] == -1,
            decreases maze.width - x,
        {
            row.push(-1);
            x = x + 1;
        }
        map.push(row);
        y = y + 1;
    }
    map
}

/// Reads the entry of `c`.
fn distance_at(maze: &Maze, map: &Vec<Vec<i32>>, c: Coord) -> (value: i32)
    requires
        map_shaped(maze, map@),
        maze.in_bounds(c),
    ensures
        value == dist_at(map@, c),
{
    map[c.y][c.x]
}

/// Writes the entry of `c`.
fn set_distance(maze: &Maze, map: &mut Vec<Vec<i32>>, c: Coord, value: i32)
    requires
        map_shaped(maze, old(map)@),
        maze.in_bounds(c),
    ensures
        map_updated(maze, old(map)@, final(map)@, c, value as int),
{
    map[c.y][c.x] = value;
}

/// The search itself. With a `target` it stops as soon as the target is visited.
fn explore(maze: &Maze, start: Coord, target: Option<Coord>) -> (found: (i32, Vec<Vec<i32>>, bool))
    requires
        maze.wf(),
        maze.in_bounds(start),
        maze.width * maze.height <= i32::MAX,
        target.is_some() ==> maze.in_bounds(target.unwrap()),
    ensures
        map_shaped(maze, found.1@),
        found.2 ==> target.is_some() && dist_at(found.1@, target.unwrap()) >= 1 && levels_ok(
            maze,
            start,
            found.1@,
            dist_at(found.1@, target.unwrap()) - 1,
        ),
        !found.2 ==> levels_ok(maze, start, found.1@, i32::MAX + 1),
        forall|c: Coord| maze.in_bounds(c) ==> #[trigger] dist_at(found.1@, c) <= found.0,
        exists|c: Coord| maze.in_bounds(c) && #[trigger] dist_at(found.1@, c) == found.0,
{
    let mut map = new_distance_map(maze);
    let mut max_distance: i32 = 0;
    let mut work_queue: VecDeque<Coord> = VecDeque::new();
    work_queue.push_back(start);
    let ghost blank = map@;
    set_distance(maze, &mut map, start, 0);
    let mut completed = false;
    let ghost mut order: Seq<Coord> = seq![start];
    let ghost mut head: int = 0;
    let ghost mut far: Coord = start;
    proof {
        assert(work_queue@ =~= order.subrange(0, 1));
        lemma_search_begins(maze, start, blank, map@);
    }
    while !completed && work_queue.len() > 0
        invariant
            maze.wf(),
            maze.in_bounds(start),
            maze.width * maze.height <= i32::MAX,
            target.is_some() ==> maze.in_bounds(target.unwrap()),
            map_shaped(maze, map@),
            completed ==> target.is_some() && dist_at(map@, target.unwrap()) >= 1 && levels_ok(
                maze,
                start,
                map@,
                dist_at(map@, target.unwrap()) - 1,
            ),
            !completed ==> search_inv(maze, start, map@, order, head) && work_queue@
                == order.subrange(head, order.len() as int),
            forall|c: Coord| maze.in_bounds(c) ==> #[trigger] dist_at(map@, c) <= max_distance,
            maze.in_bounds(far),
            dist_at(map@, far) == max_distance,
        decreases
                if completed {
                    0
                } else {
                    maze.width * maze.height - head + 1
                },
    {
        proof {
            lemma_search_head(maze, start, map@, order, head);
        }
        let current_coord = work_queue.pop_front().unwrap();
        assert(current_coord == order[head]);
        assert(work_queue@ =~= order.subrange(head + 1, order.len() as int));
        let current_distance = distance_at(maze, &map, current_coord);
        let mut dir: usize = 0;
        while dir < 4 && !completed
            invariant
                maze.wf(),
                maze.in_bounds(start),
                maze.in_bounds(current_coord),
                maze.width * maze.height <= i32::MAX,
                target.is_some() ==> maze.in_bounds(target.unwrap()),
                map_shaped(maze, map@),
                dir <= 4,
                completed ==> target.is_some() && dist_at(map@, target.unwrap()) >= 1 && levels_ok(
                    maze,
                    start,
                    map@,
                    dist_at(map@, target.unwrap()) - 1,
                ),
                !completed ==> search_inv(maze, start, map@, order, head) && head < order.len()
                    && order[head] == current_coord && work_queue@ == order.subrange(
                    head + 1,
                    order.len() as int,
                ) && current_distance == dist_at(map@, current_coord),
                !completed ==> forall|d: usize|
                    d < dir && maze.passage(current_coord, d) ==> expanded_towards(
                        maze,
                        map@,
                        current_coord,
                        d,
                    ),
                forall|c: Coord| maze.in_bounds(c) ==> #[trigger] dist_at(map@, c) <= max_distance,
                maze.in_bounds(far),
                dist_at(map@, far) == max_distance,
            decreases 4 - dir,
        {
            proof {
                lemma_search_head(maze, start, map@, order, head);
            }
            match maze.neighbour(current_coord, dir) {
                Some(neighbour_coord) => {
                    if maze.is_open(current_coord, dir) {
                        let neighbour_distance = distance_at(maze, &map, neighbour_coord);
                        if neighbour_distance == -1 {
                            let ghost before = map@;
                            set_distance(maze, &mut map, neighbour_coord, current_distance + 1);
                            proof {
                                lemma_visit(maze, start, before, map@, order, head, dir);
                                order = order.push(neighbour_coord);
                                assert(dist_at(map@, current_coord) == current_distance);
                            }
                            if current_distance + 1 > max_distance {
                                max_distance = current_distance + 1;
                                proof {
                                    far = neighbour_coord;
                                }
                            }
                            if target == Some(neighbour_coord) {
                                completed = true;
                                proof {
                                    lemma_levels_reached(
                                        maze,
                                        start,
                                        map@,
                                        order,
                                        head,
                                        current_distance as int,
                                    );
                                }
                            } else {
                                work_queue.push_back(neighbour_coord);
                                proof {
                                    assert(work_queue@ =~= order.subrange(
                                        head + 1,
                                        order.len() as int,
                                    ));
                                }
                            }
                        } else {
                            proof {
                                lemma_seen_before(maze, start, map@, order, head, dir);
                            }
                        }
                    }
                },
                None => {},
            }
            dir = dir + 1;
        }
        proof {
            if !completed {
                lemma_advance(maze, start, map@, order, head);
                head = head + 1;
                lemma_search_head(maze, start, map@, order, head);
            }
        }
    }
    proof {
        if !completed {
            assert(work_queue@.len() == 0);
            lemma_search_head(maze, start, map@, order, head);
            assert(head == order.len());
            lemma_levels_reached(maze, start, map@, order, head, i32::MAX + 1);
        }
    }
    let found = (max_distance, map, completed);
    proof {
        assert(maze.in_bounds(far) && dist_at(found.1@, far) == found.0);
    }
    found
}

/// What a finished search says of every cell and every passage.
proof fn lemma_search_finished(maze: &Maze, start: Coord, map: Seq<Vec<i32>>)
    requires
        maze.wf(),
        levels_ok(maze, start, map, i32::MAX + 1),
    ensures
        is_distance_map(maze, start, map),
        forall|c: Coord| maze.in_bounds(c) ==> #[trigger] dist_at(map, c) == maze.distance(start, c),
        forall|c: Coord| maze.in_bounds(c) ==> (#[trigger] dist_at(map, c) == 0 <==> c == start),
        forall|c: Coord, dir: usize|
            #[trigger] maze.passage(c, dir) && dist_at(map, c) >= 0 ==> 0 <= dist_at(
                map,
                neighbour_of(c, dir),
            ) <= dist_at(map, c) + 1,
        forall|c: Coord|
            maze.in_bounds(c) && #[trigger] dist_at(map, c) > 0 ==> has_way_back(maze, map, c),
{
    lemma_levels_give_distances(maze, start, map);
    assert forall|c: Coord| maze.in_bounds(c) implies #[trigger] dist_at(map, c) == maze.distance(
        start,
        c,
    ) by {
        if maze.joined(start, c) {
            maze.lemma_distance(start, c, dist_at(map, c));
        }
    }
    reveal(levels_ok);
}

impl Solver {
    /// Measures, for every cell, the length of the shortest walk from `start`.
    /// Returns the largest distance found and the map; cells that cannot be walked to
    /// keep the entry `-1`.
    pub fn build_distance_map(maze: &Maze, start: Coord) -> (result: (i32, Vec<Vec<i32>>))
        requires
            maze.wf(),
            maze.in_bounds(start),
            maze.width * maze.height <= i32::MAX,
        ensures
            is_distance_map(maze, start, result.1@),
            forall|c: Coord|
                maze.in_bounds(c) ==> #[trigger] dist_at(result.1@, c) == maze.distance(start, c),
            forall|c: Coord|
                maze.in_bounds(c) ==> (#[trigger] dist_at(result.1@, c) == 0 <==> c == start),
            forall|c: Coord, dir: usize|
                #[trigger] maze.passage(c, dir) && dist_at(result.1@, c) >= 0 ==> 0 <= dist_at(
                    result.1@,
                    neighbour_of(c, dir),
                ) <= dist_at(result.1@, c) + 1,
            forall|c: Coord|
                maze.in_bounds(c) && #[trigger] dist_at(result.1@, c) > 0 ==> has_way_back(
                    maze,
                    result.1@,
                    c,
                ),
            forall|c: Coord| maze.in_bounds(c) ==> #[trigger] dist_at(result.1@, c) <= result.0,
            exists|c: Coord| maze.in_bounds(c) && #[trigger] dist_at(result.1@, c) == result.0,
    {
        let found = explore(maze, start, None);
        let ghost far = choose|c: Coord| maze.in_bounds(c) && #[trigger] dist_at(found.1@, c) == found.0;
        let result = (found.0, found.1);
        proof {
            lemma_search_finished(maze, start, result.1@);
            assert(maze.in_bounds(far) && dist_at(result.1@, far) == result.0);
        }
        result
    }

    /// Finds a shortest walk from `start` to `finish`. The search stops as soon as it
    /// has visited `finish`; the walk is then read off the distances backwards.
    pub fn dijkstra_path_finding_solver(maze: &Maze, start: Coord, finish: Coord) -> (path: Vec<
        Coord,
    >)
        requires
            maze.wf(),
            maze.in_bounds(start),
            maze.in_bounds(finish),
            maze.width * maze.height <= i32::MAX,
            maze.joined(start, finish),
        ensures
            path@ == solution_walk(maze, start, finish),
            maze.walk_between(path@, start, finish),
            maze.shortest(start, finish, path@.len() - 1),
    {
        let found = explore(maze, start, Some(finish));
        let distance_map = found.1;
        let ghost depth: int = if found.2 {
            dist_at(distance_map@, finish) - 1
        } else {
            i32::MAX + 1
        };
        proof {
            if !found.2 {
                let w = choose|w: Seq<Coord>| maze.walk_between(w, start, finish);
                lemma_walk_cannot_be_shorter(maze, start, distance_map@, w, finish);
            }
            lemma_levels_at(maze, start, distance_map@, depth, finish);
            lemma_levels_are_distances(maze, start, distance_map@, depth, finish);
        }
        let mut current_distance = distance_at(maze, &distance_map, finish);
        let ghost total = current_distance as nat;
        let mut path: Vec<Coord> = Vec::new();
        let mut current_coord = finish;
        path.push(current_coord);
        proof {
            assert(path@.drop_last() + walk_back(maze, start, finish, total) =~= walk_back(
                maze,
                start,
                finish,
                total,
            ));
        }
        while current_distance > 0
            invariant
                maze.wf(),
                map_shaped(maze, distance_map@),
                levels_ok(maze, start, distance_map@, depth),
                maze.in_bounds(current_coord),
                current_distance == dist_at(distance_map@, current_coord),
                0 <= current_distance <= depth + 1,
                path@.len() >= 1,
                path@[0] == finish,
                path@.last() == current_coord,
                path@.len() + current_distance == dist_at(distance_map@, finish) + 1,
                forall|i: int|
                    0 <= i < path@.len() - 1 ==> maze.linked(path@[i + 1], #[trigger] path@[i]),
                walk_back(maze, start, finish, total) == path@.drop_last() + walk_back(
                    maze,
                    start,
                    current_coord,
                    current_distance as nat,
                ),
            decreases current_distance,
        {
            let ghost before = path@;
            let ghost here = current_coord;
            let mut dir: usize = 0;
            let mut found_next = false;
            proof {
                lemma_levels_are_distances(maze, start, distance_map@, depth, here);
            }
            while dir < 4 && !found_next
                invariant
                    maze.wf(),
                    map_shaped(maze, distance_map@),
                    levels_ok(maze, start, distance_map@, depth),
                    maze.in_bounds(current_coord),
                    maze.in_bounds(here),
                    dir <= 4,
                    0 < dist_at(distance_map@, here) <= depth + 1,
                    maze.distance(start, here) == dist_at(distance_map@, here),
                    !found_next ==> here == current_coord && path@ == before && before.last()
                        == current_coord && current_distance == dist_at(
                        distance_map@,
                        current_coord,
                    ) && forall|d: usize| d < dir ==> !leads_back(maze, start, here, d),
                    found_next ==> dir < 4 && leads_back(maze, start, here, dir) && (forall|
                        d: usize,
                    |
                        d < dir ==> !leads_back(maze, start, here, d)) && current_coord
                        == neighbour_of(here, dir) && path@ == before.push(current_coord)
                        && maze.linked(current_coord, here) && current_distance == dist_at(
                        distance_map@,
                        current_coord,
                    ) && current_distance == dist_at(distance_map@, here) - 1,
                decreases 4 - dir + if found_next { 0int } else { 1int },
            {
                match maze.neighbour(current_coord, dir) {
                    Some(neighbour_coord) => {
                        proof {
                            lemma_levels_are_distances(
                                maze,
                                start,
                                distance_map@,
                                depth,
                                neighbour_coord,
                            );
                        }
                        if distance_at(maze, &distance_map, neighbour_coord) == current_distance
                            - 1 && maze.is_open(current_coord, dir) {
                            proof {
                                lemma_passage_back(maze, current_coord, dir);
                                assert(maze.leads(neighbour_coord, opposite(dir), current_coord));
                            }
                            current_distance = current_distance - 1;
                            current_coord = neighbour_coord;
                            path.push(current_coord);
                            found_next = true;
                        }
                    },
                    None => {},
                }
                if !found_next {
                    dir = dir + 1;
                }
            }
            proof {
                if !found_next {
                    let back = lemma_some_side_back(maze, start, distance_map@, depth, here);
                    assert(false);
                }
                assert(side_back(maze, start, here) == dir);
                lemma_linked_backwards(maze, before, path@, current_coord);
                lemma_walk_back_step(
                    maze,
                    start,
                    finish,
                    total,
                    before,
                    here,
                    current_coord,
                    dist_at(distance_map@, here) as nat,
                );
            }
        }
        let forward = reversed(&path);
        proof {
            lemma_levels_at(maze, start, distance_map@, depth, current_coord);
            assert(walk_back(maze, start, current_coord, 0) =~= seq![current_coord]);
            assert(path@.drop_last() + seq![current_coord] =~= path@);
            assert(path@ == walk_back(maze, start, finish, total));
            let w = forward@;
            assert(w.first() == start);
            assert(w.last() == finish);
            assert forall|i: int| 0 <= i < w.len() - 1 implies maze.linked(
                #[trigger] w[i],
                w[i + 1],
            ) by {
                let k = w.len() - 2 - i;
                assert(maze.linked(path@[k + 1], path@[k]));
            }
            assert(maze.walk_between(w, start, finish));
            assert forall|u: Seq<Coord>| maze.walk_between(u, start, finish) implies u.len()
                >= w.len() by {
                if found.2 {
                    if u.len() - 1 <= depth {
                        lemma_walk_bounds_distance(
                            maze,
                            start,
                            distance_map@,
                            depth,
                            u,
                            u.len() - 1,
                        );
                    }
                } else {
                    lemma_walk_cannot_be_shorter(maze, start, distance_map@, u, finish);
                }
            }
        }
        forward
    }
}

/// The same cells in the opposite order.
pub fn reversed(list: &Vec<Coord>) -> (result: Vec<Coord>)
    ensures
        result@ == list@.reverse(),
{
    let mut result: Vec<Coord> = Vec::new();
    let mut i: usize = list.len();
    while i > 0
        invariant
            i <= list@.len(),
            result@.len() == list@.len() - i,
            forall|k: int| 0 <= k < result@.len() ==> result@[k] == list@[list@.len() - 1 - k],
        decreases i,
    {
        i = i - 1;
        result.push(list[i]);
    }
    assert(result@ =~= list@.reverse());
    result
}

} // verus!
