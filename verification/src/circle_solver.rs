use crate::circle_maze::{cells_before, ring_size, side_order, CircleMaze};
use crate::circle_maze_cell::CircleMazeCellDirection;
use crate::solver::{dist_at, reversed, Solver};
use crate::util::{CellReachType, Coord};
use std::collections::VecDeque;
use vstd::prelude::*;

verus! {

/// The map has one row for each ring of the grid and one entry for each cell.
pub open spec fn ring_map_shaped(maze: &CircleMaze, map: Seq<Vec<i32>>) -> bool {
    &&& map.len() == maze.height
    &&& forall|y: int| 0 <= y < map.len() ==> (#[trigger] map[y])@.len() == ring_size(y as nat)
}

/// The passage on the side `dir` of `c` leads one step closer to the start.
pub open spec fn ring_steps_back(
    maze: &CircleMaze,
    map: Seq<Vec<i32>>,
    c: Coord,
    dir: CircleMazeCellDirection,
) -> bool {
    maze.passage(c, dir) && dist_at(map, CircleMaze::neighbour_of(c, dir)) == dist_at(map, c) - 1
}

/// Some passage of `c` leads one step closer to the start.
pub open spec fn ring_has_way_back(maze: &CircleMaze, map: Seq<Vec<i32>>, c: Coord) -> bool {
    exists|dir: CircleMazeCellDirection| #[trigger] ring_steps_back(maze, map, c, dir)
}

/// What a search from `start` has established once every cell closer to `start`
/// than `depth` steps has been expanded: only `start` is at distance 0, every other
/// visited cell has a way back, and a passage out of an expanded cell leads to a
/// visited cell at most one step further out. `-1` stands for "not visited".
#[verifier::opaque]
pub open spec fn ring_levels_ok(
    maze: &CircleMaze,
    start: Coord,
    map: Seq<Vec<i32>>,
    depth: int,
) -> bool {
    &&& ring_map_shaped(maze, map)
    &&& maze.in_bounds(start)
    &&& dist_at(map, start) == 0
    &&& forall|c: Coord|
        maze.in_bounds(c) ==> #[trigger] dist_at(map, c) >= -1 && (dist_at(map, c) == 0 ==> c
            == start)
    &&& forall|c: Coord|
        maze.in_bounds(c) && #[trigger] dist_at(map, c) > 0 ==> ring_has_way_back(maze, map, c)
    &&& forall|c: Coord, dir: CircleMazeCellDirection|
        #[trigger] maze.passage(c, dir) && 0 <= dist_at(map, c) < depth ==> 0 <= dist_at(
            map,
            CircleMaze::neighbour_of(c, dir),
        ) <= dist_at(map, c) + 1
}

/// The map gives, for every cell, the number of steps of the shortest walk from
/// `start`, and `-1` for the cells that no walk from `start` reaches.
pub open spec fn is_ring_distance_map(maze: &CircleMaze, start: Coord, map: Seq<Vec<i32>>) -> bool {
    &&& ring_map_shaped(maze, map)
    &&& forall|c: Coord|
        maze.in_bounds(c) ==> if maze.joined(start, c) {
            maze.shortest(start, c, #[trigger] dist_at(map, c))
        } else {
            dist_at(map, c) == -1
        }
}

/// The state of a search in progress. `order` lists the visited cells as they were
/// found; the first `head` of them have been expanded.
#[verifier::opaque]
pub open spec fn ring_search_inv(
    maze: &CircleMaze,
    start: Coord,
    map: Seq<Vec<i32>>,
    order: Seq<Coord>,
    head: int,
) -> bool {
    &&& ring_map_shaped(maze, map)
    &&& maze.sound()
    &&& order.len() >= 1
    &&& order[0] == start
    &&& 0 <= head <= order.len()
    &&& order.no_duplicates()
    &&& forall|i: int| 0 <= i < order.len() ==> maze.in_bounds(#[trigger] order[i])
    &&& forall|c: Coord|
        maze.in_bounds(c) ==> #[trigger] dist_at(map, c) >= -1 && (dist_at(map, c) != -1
            ==> order.contains(c))
    &&& forall|i: int|
        0 <= i < order.len() ==> 0 <= dist_at(map, #[trigger] order[i]) <= i && (i > 0 ==> dist_at(
            map,
            order[i],
        ) > 0)
    &&& forall|i: int, j: int|
        0 <= i <= j < order.len() ==> dist_at(map, #[trigger] order[i]) <= dist_at(
            map,
            #[trigger] order[j],
        )
    &&& head < order.len() ==> dist_at(map, order.last()) <= dist_at(map, order[head]) + 1
    &&& forall|i: int| 0 < i < order.len() ==> ring_has_way_back(maze, map, #[trigger] order[i])
    &&& forall|i: int, dir: CircleMazeCellDirection|
        0 <= i < head && #[trigger] maze.passage(#[trigger] order[i], dir) ==> ring_expanded_towards(
            maze,
            map,
            order[i],
            dir,
        )
}

/// The neighbour of `c` on the side `dir` has been visited and lies at most one step
/// further from the start than `c`.
pub open spec fn ring_expanded_towards(
    maze: &CircleMaze,
    map: Seq<Vec<i32>>,
    c: Coord,
    dir: CircleMazeCellDirection,
) -> bool {
    0 <= dist_at(map, CircleMaze::neighbour_of(c, dir)) <= dist_at(map, c) + 1
}

/// The map after the entry at `at` has been set to `value`.
pub open spec fn ring_map_updated(
    maze: &CircleMaze,
    before: Seq<Vec<i32>>,
    after: Seq<Vec<i32>>,
    at: Coord,
    value: int,
) -> bool {
    &&& ring_map_shaped(maze, after)
    &&& forall|c: Coord|
        maze.in_bounds(c) ==> #[trigger] dist_at(after, c) == if c == at {
            value
        } else {
            dist_at(before, c)
        }
}

/// A way back stays one when another cell's entry changes from "not visited".
proof fn lemma_way_back_kept(
    maze: &CircleMaze,
    before: Seq<Vec<i32>>,
    after: Seq<Vec<i32>>,
    at: Coord,
    value: int,
    c: Coord,
)
    requires
        maze.sound(),
        ring_map_shaped(maze, before),
        ring_map_updated(maze, before, after, at, value),
        maze.in_bounds(at),
        dist_at(before, at) == -1,
        maze.in_bounds(c),
        c != at,
        dist_at(before, c) > 0,
        ring_has_way_back(maze, before, c),
    ensures
        ring_has_way_back(maze, after, c),
{
    let dir = choose|dir: CircleMazeCellDirection| #[trigger]
        ring_steps_back(maze, before, c, dir);
    maze.lemma_passage_back(c, dir);
    let behind = CircleMaze::neighbour_of(c, dir);
    assert(dist_at(after, behind) == dist_at(before, behind));
    assert(ring_steps_back(maze, after, c, dir));
}

/// Visiting a cell for the first time, from the cell that is being expanded, keeps
/// the state of the search.
proof fn lemma_visit(
    maze: &CircleMaze,
    start: Coord,
    before: Seq<Vec<i32>>,
    after: Seq<Vec<i32>>,
    order: Seq<Coord>,
    head: int,
    dir: CircleMazeCellDirection,
)
    requires
        ring_search_inv(maze, start, before, order, head),
        head < order.len(),
        maze.passage(order[head], dir),
        dist_at(before, CircleMaze::neighbour_of(order[head], dir)) == -1,
        ring_map_updated(
            maze,
            before,
            after,
            CircleMaze::neighbour_of(order[head], dir),
            dist_at(before, order[head]) + 1,
        ),
    ensures
        ring_search_inv(maze, start, after, order.push(CircleMaze::neighbour_of(order[head], dir)), head),
        ring_expanded_towards(maze, after, order[head], dir),
        forall|d: CircleMazeCellDirection|
            maze.passage(order[head], d) && ring_expanded_towards(maze, before, order[head], d)
                ==> ring_expanded_towards(maze, after, order[head], d),
{
    reveal(ring_search_inv);
    let cur = order[head];
    let next = CircleMaze::neighbour_of(cur, dir);
    let grown = order.push(next);
    let value = dist_at(before, cur) + 1;
    maze.lemma_passage_back(cur, dir);
    assert(maze.in_bounds(cur));
    assert(!order.contains(next)) by {
        if order.contains(next) {
            let i = choose|i: int| 0 <= i < order.len() && order[i] == next;
            assert(dist_at(before, order[i]) >= 0);
        }
    }
    assert forall|i: int| 0 <= i < order.len() implies #[trigger] grown[i] == order[i] && dist_at(
        after,
        order[i],
    ) == dist_at(before, order[i]) by {
        assert(maze.in_bounds(order[i]));
        assert(order.contains(order[i]));
    }
    assert(grown.no_duplicates()) by {
        assert forall|i: int, j: int|
            0 <= i < grown.len() && 0 <= j < grown.len() && i != j implies grown[i]
            != grown[j] by {
            if i < order.len() && j < order.len() {
            } else if i < order.len() {
                assert(order.contains(order[i]));
            } else {
                assert(order.contains(order[j]));
            }
        }
    }
    assert forall|c: Coord| maze.in_bounds(c) implies #[trigger] dist_at(after, c) >= -1 && (
    dist_at(after, c) != -1 ==> grown.contains(c)) by {
        if c == next {
            assert(grown[order.len() as int] == next);
        } else if dist_at(before, c) != -1 {
            let i = choose|i: int| 0 <= i < order.len() && order[i] == c;
            assert(grown[i] == c);
        }
    }
    assert(dist_at(after, next) == value);
    assert(dist_at(before, order[head]) <= head);
    assert forall|i: int| 0 <= i < grown.len() implies 0 <= dist_at(after, #[trigger] grown[i])
        <= i && (i > 0 ==> dist_at(after, grown[i]) > 0) by {
        if i < order.len() {
            assert(grown[i] == order[i]);
        }
    }
    assert forall|i: int, j: int| 0 <= i <= j < grown.len() implies dist_at(
        after,
        #[trigger] grown[i],
    ) <= dist_at(after, #[trigger] grown[j]) by {
        if j < order.len() {
            assert(grown[i] == order[i] && grown[j] == order[j]);
        } else if i < order.len() {
            assert(grown[i] == order[i]);
            assert(dist_at(before, order[i]) <= dist_at(before, order[order.len() - 1]));
        }
    }
    assert(dist_at(after, grown.last()) <= dist_at(after, grown[head]) + 1) by {
        assert(grown[head] == order[head]);
    }
    assert forall|i: int| 0 < i < grown.len() implies ring_has_way_back(
        maze,
        after,
        #[trigger] grown[i],
    ) by {
        if i < order.len() {
            assert(grown[i] == order[i]);
            assert(ring_has_way_back(maze, before, order[i]));
            assert(order.contains(order[i]));
            lemma_way_back_kept(maze, before, after, next, value, order[i]);
        } else {
            assert(grown[i] == next);
            assert(dist_at(after, cur) == dist_at(before, cur));
            assert(ring_steps_back(maze, after, next, CircleMaze::opposite_of(cur, dir)));
        }
    }
    assert forall|i: int, d: CircleMazeCellDirection|
        0 <= i < head && #[trigger] maze.passage(#[trigger] grown[i], d) implies ring_expanded_towards(
        maze,
        after,
        grown[i],
        d,
    ) by {
        assert(grown[i] == order[i]);
        assert(ring_expanded_towards(maze, before, order[i], d));
        maze.lemma_passage_back(order[i], d);
        assert(dist_at(before, CircleMaze::neighbour_of(order[i], d)) != -1);
    }
    assert forall|d: CircleMazeCellDirection|
        maze.passage(order[head], d) && ring_expanded_towards(
            maze,
            before,
            order[head],
            d,
        ) implies ring_expanded_towards(maze, after, order[head], d) by {
        maze.lemma_passage_back(cur, d);
    }
}

/// The state in which a search begins.
proof fn lemma_search_begins(maze: &CircleMaze, start: Coord, blank: Seq<Vec<i32>>, map: Seq<Vec<i32>>)
    requires
        maze.sound(),
        maze.in_bounds(start),
        ring_map_shaped(maze, blank),
        forall|c: Coord| maze.in_bounds(c) ==> #[trigger] dist_at(blank, c) == -1,
        ring_map_updated(maze, blank, map, start, 0),
    ensures
        ring_search_inv(maze, start, map, seq![start], 0),
{
    reveal(ring_search_inv);
    let order = seq![start];
    assert forall|c: Coord| maze.in_bounds(c) implies #[trigger] dist_at(map, c) >= -1 && (dist_at(
        map,
        c,
    ) != -1 ==> order.contains(c)) by {
        if c == start {
            assert(order[0] == start);
        }
    }
}

/// What the state of a search says of the cell at the head of the queue.
proof fn lemma_search_head(
    maze: &CircleMaze,
    start: Coord,
    map: Seq<Vec<i32>>,
    order: Seq<Coord>,
    head: int,
)
    requires
        ring_search_inv(maze, start, map, order, head),
    ensures
        ring_map_shaped(maze, map),
        0 <= head <= order.len() <= cells_before(maze.height as nat),
        head < order.len() ==> maze.in_bounds(order[head]) && 0 <= dist_at(map, order[head])
            <= head,
{
    reveal(ring_search_inv);
    maze.lemma_distinct_cells_bounded(order);
}

/// A neighbour that has been visited before lies at most one step further from the
/// start than the cell under expansion: the queue never spans more than two levels.
proof fn lemma_seen_before(
    maze: &CircleMaze,
    start: Coord,
    map: Seq<Vec<i32>>,
    order: Seq<Coord>,
    head: int,
    dir: CircleMazeCellDirection,
)
    requires
        ring_search_inv(maze, start, map, order, head),
        head < order.len(),
        maze.passage(order[head], dir),
        dist_at(map, CircleMaze::neighbour_of(order[head], dir)) != -1,
    ensures
        ring_expanded_towards(maze, map, order[head], dir),
{
    reveal(ring_search_inv);
    let next = CircleMaze::neighbour_of(order[head], dir);
    maze.lemma_passage_back(order[head], dir);
    let i = choose|i: int| 0 <= i < order.len() && order[i] == next;
    assert(dist_at(map, order[i]) <= dist_at(map, order.last()));
}

/// Once every passage of the cell under expansion has been looked at, the next cell
/// of the queue can be taken.
proof fn lemma_advance(maze: &CircleMaze, start: Coord, map: Seq<Vec<i32>>, order: Seq<Coord>, head: int)
    requires
        ring_search_inv(maze, start, map, order, head),
        head < order.len(),
        forall|dir: CircleMazeCellDirection|
            maze.passage(order[head], dir) ==> ring_expanded_towards(
                maze,
                map,
                order[head],
                dir,
            ),
    ensures
        ring_search_inv(maze, start, map, order, head + 1),
{
    reveal(ring_search_inv);
    if head + 1 < order.len() {
        assert(dist_at(map, order[head]) <= dist_at(map, order[head + 1]));
    }
    assert forall|i: int, dir: CircleMazeCellDirection|
        0 <= i < head + 1 && #[trigger] maze.passage(
            #[trigger] order[i],
            dir,
        ) implies ring_expanded_towards(maze, map, order[i], dir) by {
        if i == head {
        }
    }
}

/// A search in progress has settled every cell that is closer to the start than the
/// cell at the head of the queue.
proof fn lemma_levels_reached(
    maze: &CircleMaze,
    start: Coord,
    map: Seq<Vec<i32>>,
    order: Seq<Coord>,
    head: int,
    depth: int,
)
    requires
        ring_search_inv(maze, start, map, order, head),
        head < order.len() ==> depth <= dist_at(map, order[head]),
    ensures
        ring_levels_ok(maze, start, map, depth),
{
    reveal(ring_search_inv);
    reveal(ring_levels_ok);
    assert(dist_at(map, order[0]) == 0);
    assert forall|c: Coord| maze.in_bounds(c) implies #[trigger] dist_at(map, c) >= -1 && (dist_at(
        map,
        c,
    ) == 0 ==> c == start) by {
        if dist_at(map, c) == 0 {
            let i = choose|i: int| 0 <= i < order.len() && order[i] == c;
            assert(i > 0 ==> dist_at(map, order[i]) > 0);
        }
    }
    assert forall|c: Coord| maze.in_bounds(c) && #[trigger] dist_at(map, c) > 0 implies ring_has_way_back(
        maze,
        map,
        c,
    ) by {
        let i = choose|i: int| 0 <= i < order.len() && order[i] == c;
        assert(ring_has_way_back(maze, map, order[i]));
    }
    assert forall|c: Coord, dir: CircleMazeCellDirection|
        #[trigger] maze.passage(c, dir) && 0 <= dist_at(map, c) < depth implies 0 <= dist_at(
        map,
        CircleMaze::neighbour_of(c, dir),
    ) <= dist_at(map, c) + 1 by {
        let i = choose|i: int| 0 <= i < order.len() && order[i] == c;
        if i >= head {
            assert(dist_at(map, order[head]) <= dist_at(map, order[i]));
        }
        assert(maze.passage(order[i], dir));
        assert(ring_expanded_towards(maze, map, order[i], dir));
    }
}

/// What settled levels say of a single cell.
pub proof fn lemma_levels_at(maze: &CircleMaze, start: Coord, map: Seq<Vec<i32>>, depth: int, c: Coord)
    requires
        ring_levels_ok(maze, start, map, depth),
        maze.in_bounds(c),
    ensures
        ring_map_shaped(maze, map),
        maze.in_bounds(start),
        dist_at(map, c) >= -1,
        dist_at(map, c) == 0 <==> c == start,
        dist_at(map, c) > 0 ==> ring_has_way_back(maze, map, c),
{
    reveal(ring_levels_ok);
}

/// Every visited cell can be walked to from the start in as many steps as its entry says.
pub proof fn lemma_walk_from_start(
    maze: &CircleMaze,
    start: Coord,
    map: Seq<Vec<i32>>,
    depth: int,
    c: Coord,
) -> (w: Seq<Coord>)
    requires
        maze.sound(),
        ring_levels_ok(maze, start, map, depth),
        maze.in_bounds(c),
        dist_at(map, c) >= 0,
    ensures
        maze.walk_between(w, start, c),
        w.len() == dist_at(map, c) + 1,
    decreases dist_at(map, c),
{
    reveal(ring_levels_ok);
    if dist_at(map, c) == 0 {
        maze.lemma_walk_single(c);
        seq![c]
    } else {
        assert(ring_has_way_back(maze, map, c));
        let dir = choose|dir: CircleMazeCellDirection| #[trigger] ring_steps_back(maze, map, c, dir);
        let p = CircleMaze::neighbour_of(c, dir);
        maze.lemma_passage_back(c, dir);
        let v = lemma_walk_from_start(maze, start, map, depth, p);
        maze.lemma_leads_linked(p, CircleMaze::opposite_of(c, dir), c);
        maze.lemma_walk_push(v, start, p, c);
        v.push(c)
    }
}

/// A walk from the start cannot reach a cell in fewer steps than its entry says: the
/// cell after `i` steps has been visited and its entry is at most `i`, as far as the
/// search has settled its levels.
pub proof fn lemma_walk_bounds_distance(
    maze: &CircleMaze,
    start: Coord,
    map: Seq<Vec<i32>>,
    depth: int,
    w: Seq<Coord>,
    i: int,
)
    requires
        ring_levels_ok(maze, start, map, depth),
        maze.is_walk(w),
        w[0] == start,
        0 <= i < w.len(),
        i <= depth,
    ensures
        0 <= dist_at(map, w[i]) <= i,
    decreases i,
{
    reveal(ring_levels_ok);
    if i > 0 {
        lemma_walk_bounds_distance(maze, start, map, depth, w, i - 1);
        assert(maze.linked(w[i - 1], w[i - 1 + 1]));
        let a = w[i - 1];
        let dir = maze.lemma_side_of(a, w[i]);
        assert(maze.passage(a, dir));
    }
}

/// A map whose levels are settled to every depth is the distance map.
pub proof fn lemma_levels_give_distances(maze: &CircleMaze, start: Coord, map: Seq<Vec<i32>>)
    requires
        maze.sound(),
        ring_levels_ok(maze, start, map, i32::MAX + 1),
    ensures
        is_ring_distance_map(maze, start, map),
{
    assert(ring_map_shaped(maze, map) && maze.in_bounds(start)) by {
        reveal(ring_levels_ok);
    }
    assert forall|c: Coord| maze.in_bounds(c) implies if maze.joined(start, c) {
        maze.shortest(start, c, #[trigger] dist_at(map, c))
    } else {
        dist_at(map, c) == -1
    } by {
        lemma_levels_at(maze, start, map, i32::MAX + 1, c);
        if dist_at(map, c) >= 0 {
            let v = lemma_walk_from_start(maze, start, map, i32::MAX + 1, c);
            assert(maze.walk_between(v, start, c));
        }
        if maze.joined(start, c) {
            let w = choose|w: Seq<Coord>| maze.walk_between(w, start, c);
            lemma_walk_cannot_be_shorter(maze, start, map, w, c);
            let v = lemma_walk_from_start(maze, start, map, i32::MAX + 1, c);
            assert forall|u: Seq<Coord>| maze.walk_between(u, start, c) implies u.len() >= dist_at(
                map,
                c,
            ) + 1 by {
                lemma_walk_cannot_be_shorter(maze, start, map, u, c);
            }
        }
    }
}

/// With all levels settled, a walk from the start to `c` takes at least as many
/// steps as the entry of `c` says, and `c` has been visited.
proof fn lemma_walk_cannot_be_shorter(
    maze: &CircleMaze,
    start: Coord,
    map: Seq<Vec<i32>>,
    w: Seq<Coord>,
    c: Coord,
)
    requires
        maze.sound(),
        ring_levels_ok(maze, start, map, i32::MAX + 1),
        maze.walk_between(w, start, c),
    ensures
        0 <= dist_at(map, c) <= w.len() - 1,
{
    let n = w.len() - 1;
    if n <= i32::MAX + 1 {
        lemma_walk_bounds_distance(maze, start, map, i32::MAX + 1, w, n);
    } else {
        lemma_walk_bounds_distance(maze, start, map, i32::MAX + 1, w, i32::MAX + 1);
        maze.lemma_walk_in_bounds(w, n);
        let k = (i32::MAX + 1) as int;
        lemma_bounded_spread(maze, start, map, w, k, n);
    }
}

/// Along a walk through visited cells the entries grow by at most one per step.
proof fn lemma_bounded_spread(
    maze: &CircleMaze,
    start: Coord,
    map: Seq<Vec<i32>>,
    w: Seq<Coord>,
    from: int,
    to: int,
)
    requires
        maze.sound(),
        ring_levels_ok(maze, start, map, i32::MAX + 1),
        maze.is_walk(w),
        0 <= from <= to < w.len(),
        0 <= dist_at(map, w[from]),
    ensures
        0 <= dist_at(map, w[to]) <= dist_at(map, w[from]) + (to - from),
    decreases to - from,
{
    reveal(ring_levels_ok);
    if from < to {
        lemma_bounded_spread(maze, start, map, w, from, to - 1);
        assert(maze.linked(w[to - 1], w[to - 1 + 1]));
        let a = w[to - 1];
        let dir = maze.lemma_side_of(a, w[to]);
        assert(maze.passage(a, dir));
        maze.lemma_walk_in_bounds(w, to - 1);
    }
}

/// A shortest walk from `start` to `finish` takes as many steps as the distance map
/// of `start` records for `finish`.
pub proof fn lemma_path_length_is_distance(
    maze: &CircleMaze,
    start: Coord,
    finish: Coord,
    path: Seq<Coord>,
    map: Seq<Vec<i32>>,
)
    requires
        maze.in_bounds(finish),
        is_ring_distance_map(maze, start, map),
        maze.walk_between(path, start, finish),
        maze.shortest(start, finish, path.len() - 1),
    ensures
        path.len() - 1 == dist_at(map, finish),
{
    assert(maze.joined(start, finish));
    assert(maze.shortest(start, finish, dist_at(map, finish)));
    let w = choose|w: Seq<Coord>|
        maze.walk_between(w, start, finish) && w.len() == dist_at(map, finish) + 1;
    assert(w.len() >= path.len() - 1 + 1);
    assert(path.len() >= dist_at(map, finish) + 1);
}


/// A map in which no cell has been visited.
fn new_distance_map(maze: &CircleMaze) -> (map: Vec<Vec<i32>>)
    requires
        maze.wf(),
    ensures
        ring_map_shaped(maze, map@),
        forall|c: Coord| maze.in_bounds(c) ==> #[trigger] dist_at(map@, c) == -1,
{
    let mut map: Vec<Vec<i32>> = Vec::new();
    let mut y: usize = 0;
    while y < maze.height
        invariant
            maze.wf(),
            y <= maze.height,
            map@.len() == y,
            forall|r: int| 0 <= r < map@.len() ==> (#[trigger] map@[r])@.len() == ring_size(r as nat),
            forall|r: int, x: int|
                0 <= r < map@.len() && 0 <= x < ring_size(r as nat) ==> #[trigger] map@[r]@[x] == -1,
        decreases maze.height - y,
    {
        let mut row: Vec<i32> = Vec::new();
        let ring_len = maze.cells[y].len();
        let mut x: usize = 0;
        while x < ring_len
            invariant
                x <= ring_len,
                row@.len() == x,
                forall|k: int| 0 <= k < row@.len() ==> row@[k] == -1,
            decreases ring_len - x,
        {
            row.push(-1);
            x = x + 1;
        }
        map.push(row);
        y = y + 1;
    }
    map
}

/// Reads the entry of `c`.
fn distance_at(maze: &CircleMaze, map: &Vec<Vec<i32>>, c: Coord) -> (value: i32)
    requires
        ring_map_shaped(maze, map@),
        maze.in_bounds(c),
    ensures
        value == dist_at(map@, c),
{
    map[c.y][c.x]
}

/// Writes the entry of `c`.
fn set_distance(maze: &CircleMaze, map: &mut Vec<Vec<i32>>, c: Coord, value: i32)
    requires
        ring_map_shaped(maze, old(map)@),
        maze.in_bounds(c),
    ensures
        ring_map_updated(maze, old(map)@, final(map)@, c, value as int),
{
    map[c.y][c.x] = value;
}

/// The unfiltered adjacency list of `c`: every side on which `c` has a neighbour,
/// with that neighbour.
pub open spec fn all_sides(
    maze: &CircleMaze,
    c: Coord,
    list: Seq<(CircleMazeCellDirection, Coord)>,
) -> bool {
    &&& forall|j: int|
        0 <= j < list.len() ==> maze.has_neighbour(c, (#[trigger] list[j]).0) && list[j].1
            == CircleMaze::neighbour_of(c, list[j].0)
    &&& forall|dir: CircleMazeCellDirection|
        maze.has_neighbour(c, dir) ==> exists|j: int|
            0 <= j < list.len() && (#[trigger] list[j]).0 == dir
    &&& forall|i: int, j: int|
        0 <= i < j < list.len() ==> side_order((#[trigger] list[i]).0) < side_order(
            (#[trigger] list[j]).0,
        )
}

/// The passage on the side `dir` of `c` leads to a cell one step closer to `start`.
pub open spec fn ring_leads_back(
    maze: &CircleMaze,
    start: Coord,
    c: Coord,
    dir: CircleMazeCellDirection,
) -> bool {
    maze.passage(c, dir) && maze.distance(start, CircleMaze::neighbour_of(c, dir))
        == maze.distance(start, c) - 1
}

/// The first side, in the order east, west, south, north, on which a passage of
/// `c` leads one step closer to `start`.
pub open spec fn ring_side_back(maze: &CircleMaze, start: Coord, c: Coord) -> CircleMazeCellDirection {
    choose|dir: CircleMazeCellDirection|
        ring_leads_back(maze, start, c, dir) && forall|other: CircleMazeCellDirection|
            #[trigger] ring_leads_back(maze, start, c, other) ==> side_order(dir) <= side_order(
                other,
            )
}

/// The walk of `steps` steps from `c` towards `start` that leaves every cell on its
/// first side that leads one step closer.
pub open spec fn ring_walk_back(maze: &CircleMaze, start: Coord, c: Coord, steps: nat) -> Seq<
    Coord,
>
    decreases steps,
{
    if steps == 0 {
        seq![c]
    } else {
        seq![c] + ring_walk_back(
            maze,
            start,
            CircleMaze::neighbour_of(c, ring_side_back(maze, start, c)),
            (steps - 1) as nat,
        )
    }
}

/// The walk from `start` to `finish` that the solver gives: read backwards, it
/// leaves every cell on the first side, in the order east, west, south, north,
/// on which a passage leads one step closer to `start`.
pub open spec fn ring_solution_walk(maze: &CircleMaze, start: Coord, finish: Coord) -> Seq<Coord> {
    ring_walk_back(maze, start, finish, maze.distance(start, finish) as nat).reverse()
}

/// The first entry of an adjacency list whose side leads back names the first side
/// that leads back.
proof fn lemma_first_side_back(
    maze: &CircleMaze,
    start: Coord,
    c: Coord,
    list: Seq<(CircleMazeCellDirection, Coord)>,
    k: int,
)
    requires
        all_sides(maze, c, list),
        0 <= k < list.len(),
        ring_leads_back(maze, start, c, list[k].0),
        forall|j: int| 0 <= j < k ==> !ring_leads_back(maze, start, c, (#[trigger] list[j]).0),
    ensures
        ring_side_back(maze, start, c) == list[k].0,
{
    let first = list[k].0;
    assert forall|other: CircleMazeCellDirection| #[trigger]
        ring_leads_back(maze, start, c, other) implies side_order(first) <= side_order(other) by {
        let m = choose|m: int| 0 <= m < list.len() && (#[trigger] list[m]).0 == other;
        if m < k {
            assert(!ring_leads_back(maze, start, c, list[m].0));
        } else if m > k {
            assert(side_order(list[k].0) < side_order(list[m].0));
        }
    }
    let chosen = ring_side_back(maze, start, c);
    assert(side_order(chosen) <= side_order(first));
    assert(side_order(first) <= side_order(chosen));
}

/// Among the sides that lead back one comes first in the order of the sides.
proof fn lemma_first_back_exists(
    maze: &CircleMaze,
    start: Coord,
    c: Coord,
    some: CircleMazeCellDirection,
)
    requires
        ring_leads_back(maze, start, c, some),
    ensures
        ring_leads_back(maze, start, c, ring_side_back(maze, start, c)),
        forall|other: CircleMazeCellDirection|
            #[trigger] ring_leads_back(maze, start, c, other) ==> side_order(
                ring_side_back(maze, start, c),
            ) <= side_order(other),
    decreases side_order(some),
{
    if forall|other: CircleMazeCellDirection|
        #[trigger] ring_leads_back(maze, start, c, other) ==> side_order(some) <= side_order(
            other,
        ) {
    } else {
        let other = choose|other: CircleMazeCellDirection|
            #[trigger] ring_leads_back(maze, start, c, other) && side_order(other) < side_order(
                some,
            );
        lemma_first_back_exists(maze, start, c, other);
    }
}

/// The walk back from a cell that can be walked to takes as many steps as the cell
/// is distant from the start; it ends at the start, and each of its cells is
/// linked to the one before it.
pub proof fn lemma_walk_back(maze: &CircleMaze, start: Coord, c: Coord, steps: nat)
    requires
        maze.sound(),
        maze.in_bounds(start),
        maze.distance(start, c) == steps,
    ensures
        ring_walk_back(maze, start, c, steps).len() == steps + 1,
        ring_walk_back(maze, start, c, steps)[0] == c,
        ring_walk_back(maze, start, c, steps).last() == start,
        forall|i: int|
            0 <= i < steps ==> maze.linked(
                ring_walk_back(maze, start, c, steps)[i + 1],
                #[trigger] ring_walk_back(maze, start, c, steps)[i],
            ),
    decreases steps,
{
    let w = ring_walk_back(maze, start, c, steps);
    if steps == 0 {
        maze.lemma_distance_zero(start, c);
    } else {
        let some = maze.lemma_distance_way_back(start, c);
        assert(ring_leads_back(maze, start, c, some));
        lemma_first_back_exists(maze, start, c, some);
        let side = ring_side_back(maze, start, c);
        let p = CircleMaze::neighbour_of(c, side);
        lemma_walk_back(maze, start, p, (steps - 1) as nat);
        let rest = ring_walk_back(maze, start, p, (steps - 1) as nat);
        assert(w == seq![c] + rest) by {
            reveal_with_fuel(ring_walk_back, 2);
        }
        maze.lemma_passage_back(c, side);
        maze.lemma_leads_linked(p, CircleMaze::opposite_of(c, side), c);
        assert forall|i: int| 0 <= i < steps implies maze.linked(w[i + 1], #[trigger] w[i]) by {
            if i > 0 {
                assert(maze.linked(rest[i - 1 + 1], rest[i - 1]));
            }
        }
    }
}

/// Between joined cells the solver's walk is a walk from the start to the finish,
/// and it takes as many steps as the finish is distant from the start: no walk
/// between the two is shorter.
pub proof fn lemma_solution_walk(maze: &CircleMaze, start: Coord, finish: Coord)
    requires
        maze.sound(),
        maze.in_bounds(start),
        maze.joined(start, finish),
    ensures
        maze.walk_between(ring_solution_walk(maze, start, finish), start, finish),
        ring_solution_walk(maze, start, finish).len() - 1 == maze.distance(start, finish),
        maze.shortest(start, finish, ring_solution_walk(maze, start, finish).len() - 1),
{
    maze.lemma_distance_of_joined(start, finish);
    let steps = maze.distance(start, finish) as nat;
    lemma_walk_back(maze, start, finish, steps);
    let back = ring_walk_back(maze, start, finish, steps);
    let w = ring_solution_walk(maze, start, finish);
    assert forall|i: int| 0 <= i < w.len() - 1 implies maze.linked(#[trigger] w[i], w[i + 1]) by {
        let k = w.len() - 2 - i;
        assert(maze.linked(back[k + 1], back[k]));
    }
}

/// Some side of a visited cell other than the start leads back, and the adjacency
/// list of the cell names it.
proof fn lemma_some_side_back(
    maze: &CircleMaze,
    start: Coord,
    map: Seq<Vec<i32>>,
    depth: int,
    here: Coord,
    list: Seq<(CircleMazeCellDirection, Coord)>,
) -> (j: int)
    requires
        maze.sound(),
        ring_levels_ok(maze, start, map, depth),
        maze.in_bounds(here),
        0 < dist_at(map, here) <= depth + 1,
        all_sides(maze, here, list),
    ensures
        0 <= j < list.len(),
        ring_leads_back(maze, start, here, list[j].0),
{
    lemma_levels_at(maze, start, map, depth, here);
    let dir = choose|dir: CircleMazeCellDirection| #[trigger]
        ring_steps_back(maze, map, here, dir);
    maze.lemma_passage_back(here, dir);
    lemma_levels_are_distances(maze, start, map, depth, here);
    lemma_levels_are_distances(maze, start, map, depth, CircleMaze::neighbour_of(here, dir));
    choose|j: int| 0 <= j < list.len() && (#[trigger] list[j]).0 == dir
}

/// A walk read backwards stays linked when a cell linked to its last is appended.
proof fn lemma_linked_backwards(
    maze: &CircleMaze,
    before: Seq<Coord>,
    path: Seq<Coord>,
    current: Coord,
)
    requires
        before.len() >= 1,
        path == before.push(current),
        maze.linked(current, before.last()),
        forall|i: int| 0 <= i < before.len() - 1 ==> maze.linked(before[i + 1], #[trigger] before[i]),
    ensures
        forall|i: int| 0 <= i < path.len() - 1 ==> maze.linked(path[i + 1], #[trigger] path[i]),
{
    assert forall|i: int| 0 <= i < path.len() - 1 implies maze.linked(
        path[i + 1],
        #[trigger] path[i],
    ) by {
        if i < before.len() - 1 {
            assert(path[i] == before[i]);
            assert(path[i + 1] == before[i + 1]);
        } else {
            assert(path[i] == before.last());
        }
    }
}

/// One step further along the walk back.
proof fn lemma_walk_back_step(
    maze: &CircleMaze,
    start: Coord,
    finish: Coord,
    total: nat,
    before: Seq<Coord>,
    here: Coord,
    current: Coord,
    steps: nat,
)
    requires
        before.len() >= 1,
        before.last() == here,
        steps > 0,
        current == CircleMaze::neighbour_of(here, ring_side_back(maze, start, here)),
        ring_walk_back(maze, start, finish, total) == before.drop_last() + ring_walk_back(
            maze,
            start,
            here,
            steps,
        ),
    ensures
        ring_walk_back(maze, start, finish, total) == before.push(current).drop_last()
            + ring_walk_back(maze, start, current, (steps - 1) as nat),
{
    let rest = ring_walk_back(maze, start, current, (steps - 1) as nat);
    assert(ring_walk_back(maze, start, here, steps) == seq![here] + rest) by {
        reveal_with_fuel(ring_walk_back, 2);
    }
    assert(before.push(current).drop_last() =~= before);
    assert(before =~= before.drop_last() + seq![here]);
    assert(before.drop_last() + (seq![here] + rest) =~= before + rest);
}

/// As far as a search has settled its levels, the entries of its map are the
/// distances from `start`.
pub proof fn lemma_levels_are_distances(
    maze: &CircleMaze,
    start: Coord,
    map: Seq<Vec<i32>>,
    depth: int,
    c: Coord,
)
    requires
        maze.sound(),
        ring_levels_ok(maze, start, map, depth),
        maze.in_bounds(c),
    ensures
        0 <= dist_at(map, c) <= depth + 1 ==> maze.distance(start, c) == dist_at(map, c),
        0 <= maze.distance(start, c) <= depth ==> dist_at(map, c) == maze.distance(start, c),
{
    lemma_levels_at(maze, start, map, depth, c);
    if 0 <= dist_at(map, c) <= depth + 1 {
        let k = dist_at(map, c);
        let v = lemma_walk_from_start(maze, start, map, depth, c);
        assert forall|u: Seq<Coord>| maze.walk_between(u, start, c) implies u.len() >= k + 1 by {
            if u.len() - 1 < k {
                lemma_walk_bounds_distance(maze, start, map, depth, u, u.len() - 1);
            }
        }
        maze.lemma_distance(start, c, k);
    }
    if 0 <= maze.distance(start, c) <= depth {
        let w = choose|w: Seq<Coord>| maze.walk_between(w, start, c);
        let n = maze.lemma_shortest_exists(w, start, c);
        maze.lemma_distance(start, c, n);
        let u = choose|u: Seq<Coord>| maze.walk_between(u, start, c) && u.len() == n + 1;
        lemma_walk_bounds_distance(maze, start, map, depth, u, n);
        let v = lemma_walk_from_start(maze, start, map, depth, c);
    }
}

/// Lists every side on which `c` has a neighbour.
fn sides_of(maze: &CircleMaze, c: Coord) -> (list: Vec<(CircleMazeCellDirection, Coord)>)
    requires
        maze.wf(),
        maze.in_bounds(c),
    ensures
        all_sides(maze, c, list@),
{
    let list = maze.neighbours(c, CellReachType::Anything);
    proof {
        assert forall|j: int| 0 <= j < list@.len() implies maze.has_neighbour(
            c,
            (#[trigger] list@[j]).0,
        ) && list@[j].1 == CircleMaze::neighbour_of(c, list@[j].0) by {
            assert(maze.offers(c, CellReachType::Anything, list@[j].0));
        }
        assert forall|dir: CircleMazeCellDirection| maze.has_neighbour(c, dir) implies exists|
            j: int,
        |
            0 <= j < list@.len() && (#[trigger] list@[j]).0 == dir by {
            assert(maze.offers(c, CellReachType::Anything, dir));
        }
    }
    list
}

/// The search itself. With a `target` it stops as soon as the target is visited.
fn explore(maze: &CircleMaze, start: Coord, target: Option<Coord>) -> (found: (
    i32,
    Vec<Vec<i32>>,
    bool,
))
    requires
        maze.sound(),
        maze.in_bounds(start),
        cells_before(maze.height as nat) <= i32::MAX,
        target.is_some() ==> maze.in_bounds(target.unwrap()),
    ensures
        ring_map_shaped(maze, found.1@),
        found.2 ==> target.is_some() && dist_at(found.1@, target.unwrap()) >= 1 && ring_levels_ok(
            maze,
            start,
            found.1@,
            dist_at(found.1@, target.unwrap()) - 1,
        ),
        !found.2 ==> ring_levels_ok(maze, start, found.1@, i32::MAX + 1),
        forall|c: Coord| maze.in_bounds(c) ==> #[trigger] dist_at(found.1@, c) <= found.0,
        exists|c: Coord| maze.in_bounds(c) && #[trigger] dist_at(found.1@, c) == found.0,
{
    let mut map = new_distance_map(maze);
    let mut max_distance: i32 = 0;
    let mut work_queue: VecDeque<Coord> = VecDeque::new();
    work_queue.push_back(start);
    let ghost blank = map@;
    set_distance(maze, &mut map, start, 0);
    let mut completed = false;
    let ghost mut order: Seq<Coord> = seq![start];
    let ghost mut head: int = 0;
    let ghost mut far: Coord = start;
    proof {
        assert(work_queue@ =~= order.subrange(0, 1));
        lemma_search_begins(maze, start, blank, map@);
    }
    while !completed && work_queue.len() > 0
        invariant
            maze.sound(),
            maze.in_bounds(start),
            cells_before(maze.height as nat) <= i32::MAX,
            target.is_some() ==> maze.in_bounds(target.unwrap()),
            ring_map_shaped(maze, map@),
            completed ==> target.is_some() && dist_at(map@, target.unwrap()) >= 1 && ring_levels_ok(
                maze,
                start,
                map@,
                dist_at(map@, target.unwrap()) - 1,
            ),
            !completed ==> ring_search_inv(maze, start, map@, order, head) && work_queue@
                == order.subrange(head, order.len() as int),
            forall|c: Coord| maze.in_bounds(c) ==> #[trigger] dist_at(map@, c) <= max_distance,
            maze.in_bounds(far),
            dist_at(map@, far) == max_distance,
        decreases
                if completed {
                    0
                } else {
                    cells_before(maze.height as nat) - head + 1
                },
    {
        proof {
            lemma_search_head(maze, start, map@, order, head);
        }
        let current_coord = work_queue.pop_front().unwrap();
        assert(current_coord == order[head]);
        assert(work_queue@ =~= order.subrange(head + 1, order.len() as int));
        let current_distance = distance_at(maze, &map, current_coord);
        let neighbours = sides_of(maze, current_coord);
        let mut k: usize = 0;
        while k < neighbours.len() && !completed
            invariant
                maze.sound(),
                maze.in_bounds(start),
                maze.in_bounds(current_coord),
                cells_before(maze.height as nat) <= i32::MAX,
                target.is_some() ==> maze.in_bounds(target.unwrap()),
                ring_map_shaped(maze, map@),
                all_sides(maze, current_coord, neighbours@),
                k <= neighbours@.len(),
                completed ==> target.is_some() && dist_at(map@, target.unwrap()) >= 1
                    && ring_levels_ok(maze, start, map@, dist_at(map@, target.unwrap()) - 1),
                !completed ==> ring_search_inv(maze, start, map@, order, head) && head < order.len()
                    && order[head] == current_coord && work_queue@ == order.subrange(
                    head + 1,
                    order.len() as int,
                ) && current_distance == dist_at(map@, current_coord),
                !completed ==> forall|j: int|
                    0 <= j < k && maze.passage(current_coord, (#[trigger] neighbours@[j]).0)
                        ==> ring_expanded_towards(maze, map@, current_coord, neighbours@[j].0),
                forall|c: Coord| maze.in_bounds(c) ==> #[trigger] dist_at(map@, c) <= max_distance,
                maze.in_bounds(far),
                dist_at(map@, far) == max_distance,
            decreases neighbours@.len() - k,
        {
            proof {
                lemma_search_head(maze, start, map@, order, head);
            }
            let dir = neighbours[k].0;
            let neighbour_coord = neighbours[k].1;
            proof {
                maze.lemma_neighbour_back(current_coord, dir);
            }
            if maze.is_open(current_coord, dir) {
                let neighbour_distance = distance_at(maze, &map, neighbour_coord);
                if neighbour_distance == -1 {
                    let ghost before = map@;
                    set_distance(maze, &mut map, neighbour_coord, current_distance + 1);
                    proof {
                        lemma_visit(maze, start, before, map@, order, head, dir);
                        order = order.push(neighbour_coord);
                        assert(dist_at(map@, current_coord) == current_distance);
                    }
                    if current_distance + 1 > max_distance {
                        max_distance = current_distance + 1;
                        proof {
                            far = neighbour_coord;
                        }
                    }
                    if target == Some(neighbour_coord) {
                        completed = true;
                        proof {
                            lemma_levels_reached(
                                maze,
                                start,
                                map@,
                                order,
                                head,
                                current_distance as int,
                            );
                        }
                    } else {
                        work_queue.push_back(neighbour_coord);
                        proof {
                            assert(work_queue@ =~= order.subrange(head + 1, order.len() as int));
                        }
                    }
                } else {
                    proof {
                        lemma_seen_before(maze, start, map@, order, head, dir);
                    }
                }
            }
            k = k + 1;
        }
        proof {
            if !completed {
                assert forall|dir: CircleMazeCellDirection|
                    maze.passage(order[head], dir) implies ring_expanded_towards(
                    maze,
                    map@,
                    order[head],
                    dir,
                ) by {
                    let j = choose|j: int|
                        0 <= j < neighbours@.len() && (#[trigger] neighbours@[j]).0 == dir;
                    assert(maze.passage(current_coord, neighbours@[j].0));
                }
                lemma_advance(maze, start, map@, order, head);
                head = head + 1;
                lemma_search_head(maze, start, map@, order, head);
            }
        }
    }
    proof {
        if !completed {
            assert(work_queue@.len() == 0);
            lemma_search_head(maze, start, map@, order, head);
            assert(head == order.len());
            lemma_levels_reached(maze, start, map@, order, head, i32::MAX + 1);
        }
    }
    let found = (max_distance, map, completed);
    proof {
        assert(maze.in_bounds(far) && dist_at(found.1@, far) == found.0);
    }
    found
}

/// What a finished search says of every cell and every passage.
proof fn lemma_search_finished(maze: &CircleMaze, start: Coord, map: Seq<Vec<i32>>)
    requires
        maze.sound(),
        ring_levels_ok(maze, start, map, i32::MAX + 1),
    ensures
        is_ring_distance_map(maze, start, map),
        forall|c: Coord| maze.in_bounds(c) ==> #[trigger] dist_at(map, c) == maze.distance(start, c),
        forall|c: Coord| maze.in_bounds(c) ==> (#[trigger] dist_at(map, c) == 0 <==> c == start),
        forall|c: Coord, dir: CircleMazeCellDirection|
            #[trigger] maze.passage(c, dir) && dist_at(map, c) >= 0 ==> 0 <= dist_at(
                map,
                CircleMaze::neighbour_of(c, dir),
            ) <= dist_at(map, c) + 1,
        forall|c: Coord|
            maze.in_bounds(c) && #[trigger] dist_at(map, c) > 0 ==> ring_has_way_back(maze, map, c),
{
    lemma_levels_give_distances(maze, start, map);
    assert forall|c: Coord| maze.in_bounds(c) implies #[trigger] dist_at(map, c) == maze.distance(
        start,
        c,
    ) by {
        if maze.joined(start, c) {
            maze.lemma_distance(start, c, dist_at(map, c));
        }
    }
    reveal(ring_levels_ok);
}

impl Solver {
    /// Measures, for every cell of a ring grid, the length of the shortest walk from
    /// `start`. Returns the largest distance found and the map, which has one row
    /// for each ring; cells that cannot be walked to keep the entry `-1`.
    pub fn build_distance_map_for_circle_maze(maze: &CircleMaze, start: Coord) -> (result: (
        i32,
        Vec<Vec<i32>>,
    ))
        requires
            maze.sound(),
            maze.in_bounds(start),
            cells_before(maze.height as nat) <= i32::MAX,
        ensures
            is_ring_distance_map(maze, start, result.1@),
            forall|c: Coord|
                maze.in_bounds(c) ==> #[trigger] dist_at(result.1@, c) == maze.distance(start, c),
            forall|c: Coord|
                maze.in_bounds(c) ==> (#[trigger] dist_at(result.1@, c) == 0 <==> c == start),
            forall|c: Coord, dir: CircleMazeCellDirection|
                #[trigger] maze.passage(c, dir) && dist_at(result.1@, c) >= 0 ==> 0 <= dist_at(
                    result.1@,
                    CircleMaze::neighbour_of(c, dir),
                ) <= dist_at(result.1@, c) + 1,
            forall|c: Coord|
                maze.in_bounds(c) && #[trigger] dist_at(result.1@, c) > 0 ==> ring_has_way_back(
                    maze,
                    result.1@,
                    c,
                ),
            forall|c: Coord| maze.in_bounds(c) ==> #[trigger] dist_at(result.1@, c) <= result.0,
            exists|c: Coord| maze.in_bounds(c) && #[trigger] dist_at(result.1@, c) == result.0,
    {
        let found = explore(maze, start, None);
        let ghost far = choose|c: Coord| maze.in_bounds(c) && #[trigger] dist_at(found.1@, c) == found.0;
        let result = (found.0, found.1);
        proof {
            lemma_search_finished(maze, start, result.1@);
            assert(maze.in_bounds(far) && dist_at(result.1@, far) == result.0);
        }
        result
    }

    /// Finds a shortest walk from `start` to `finish` through a ring grid. The
    /// search stops as soon as it has visited `finish`; the walk is then read off
    /// the distances backwards.
    pub fn dijkstra_path_finding_solver_for_circle_maze(
        maze: &CircleMaze,
        start: Coord,
        finish: Coord,
    ) -> (path: Vec<Coord>)
        requires
            maze.sound(),
            maze.in_bounds(start),
            maze.in_bounds(finish),
            cells_before(maze.height as nat) <= i32::MAX,
            maze.joined(start, finish),
        ensures
            path@ == ring_solution_walk(maze, start, finish),
            maze.walk_between(path@, start, finish),
            maze.shortest(start, finish, path@.len() - 1),
    {
        let found = explore(maze, start, Some(finish));
        let distance_map = found.1;
        let ghost depth: int = if found.2 {
            dist_at(distance_map@, finish) - 1
        } else {
            i32::MAX + 1
        };
        proof {
            if !found.2 {
                let w = choose|w: Seq<Coord>| maze.walk_between(w, start, finish);
                lemma_walk_cannot_be_shorter(maze, start, distance_map@, w, finish);
            }
            lemma_levels_at(maze, start, distance_map@, depth, finish);
            lemma_levels_are_distances(maze, start, distance_map@, depth, finish);
        }
        let mut current_distance = distance_at(maze, &distance_map, finish);
        let ghost total = current_distance as nat;
        let mut path: Vec<Coord> = Vec::new();
        let mut current_coord = finish;
        path.push(current_coord);
        proof {
            assert(path@.drop_last() + ring_walk_back(maze, start, finish, total)
                =~= ring_walk_back(maze, start, finish, total));
        }
        while current_distance > 0
            invariant
                maze.sound(),
                ring_map_shaped(maze, distance_map@),
                ring_levels_ok(maze, start, distance_map@, depth),
                maze.in_bounds(current_coord),
                current_distance == dist_at(distance_map@, current_coord),
                0 <= current_distance <= depth + 1,
                path@.len() >= 1,
                path@[0] == finish,
                path@.last() == current_coord,
                path@.len() + current_distance == dist_at(distance_map@, finish) + 1,
                forall|i: int|
                    0 <= i < path@.len() - 1 ==> maze.linked(path@[i + 1], #[trigger] path@[i]),
                ring_walk_back(maze, start, finish, total) == path@.drop_last() + ring_walk_back(
                    maze,
                    start,
                    current_coord,
                    current_distance as nat,
                ),
            decreases current_distance,
        {
            let ghost before = path@;
            let ghost here = current_coord;
            let neighbours = sides_of(maze, current_coord);
            let mut k: usize = 0;
            let mut found_next = false;
            proof {
                lemma_levels_are_distances(maze, start, distance_map@, depth, here);
            }
            while k < neighbours.len() && !found_next
                invariant
                    maze.sound(),
                    ring_map_shaped(maze, distance_map@),
                    ring_levels_ok(maze, start, distance_map@, depth),
                    maze.in_bounds(current_coord),
                    maze.in_bounds(here),
                    all_sides(maze, here, neighbours@),
                    k <= neighbours@.len(),
                    0 < dist_at(distance_map@, here) <= depth + 1,
                    maze.distance(start, here) == dist_at(distance_map@, here),
                    !found_next ==> here == current_coord && path@ == before && before.last()
                        == current_coord && current_distance == dist_at(
                        distance_map@,
                        current_coord,
                    ) && forall|j: int|
                        0 <= j < k ==> !ring_leads_back(
                            maze,
                            start,
                            here,
                            (#[trigger] neighbours@[j]).0,
                        ),
                    found_next ==> k < neighbours@.len() && ring_leads_back(
                        maze,
                        start,
                        here,
                        neighbours@[k as int].0,
                    ) && (forall|j: int|
                        0 <= j < k ==> !ring_leads_back(
                            maze,
                            start,
                            here,
                            (#[trigger] neighbours@[j]).0,
                        )) && current_coord == neighbours@[k as int].1 && path@ == before.push(
                        current_coord,
                    ) && maze.linked(current_coord, here) && current_distance == dist_at(
                        distance_map@,
                        current_coord,
                    ) && current_distance == dist_at(distance_map@, here) - 1,
                decreases neighbours@.len() - k + if found_next { 0int } else { 1int },
            {
                let dir = neighbours[k].0;
                let neighbour_coord = neighbours[k].1;
                proof {
                    maze.lemma_neighbour_back(current_coord, dir);
                    lemma_levels_are_distances(
                        maze,
                        start,
                        distance_map@,
                        depth,
                        neighbour_coord,
                    );
                }
                if distance_at(maze, &distance_map, neighbour_coord) == current_distance - 1
                    && maze.is_open(current_coord, dir) {
                    proof {
                        maze.lemma_passage_back(current_coord, dir);
                        maze.lemma_leads_linked(
                            neighbour_coord,
                            CircleMaze::opposite_of(current_coord, dir),
                            current_coord,
                        );
                    }
                    current_distance = current_distance - 1;
                    current_coord = neighbour_coord;
                    path.push(current_coord);
                    found_next = true;
                }
                if !found_next {
                    k = k + 1;
                }
            }
            proof {
                if !found_next {
                    let j = lemma_some_side_back(
                        maze,
                        start,
                        distance_map@,
                        depth,
                        here,
                        neighbours@,
                    );
                    assert(false);
                }
                lemma_first_side_back(maze, start, here, neighbours@, k as int);
                lemma_linked_backwards(maze, before, path@, current_coord);
                lemma_walk_back_step(
                    maze,
                    start,
                    finish,
                    total,
                    before,
                    here,
                    current_coord,
                    dist_at(distance_map@, here) as nat,
                );
            }
        }
        let forward = reversed(&path);
        proof {
            lemma_levels_at(maze, start, distance_map@, depth, current_coord);
            assert(ring_walk_back(maze, start, current_coord, 0) =~= seq![current_coord]);
            assert(path@.drop_last() + seq![current_coord] =~= path@);
            assert(path@ == ring_walk_back(maze, start, finish, total));
            let w = forward@;
            assert(w.first() == start);
            assert(w.last() == finish);
            assert forall|i: int| 0 <= i < w.len() - 1 implies maze.linked(
                #[trigger] w[i],
                w[i + 1],
            ) by {
                let k = w.len() - 2 - i;
                assert(maze.linked(path@[k + 1], path@[k]));
            }
            assert(maze.walk_between(w, start, finish));
            assert forall|u: Seq<Coord>| maze.walk_between(u, start, finish) implies u.len()
                >= w.len() by {
                if found.2 {
                    if u.len() - 1 <= depth {
                        lemma_walk_bounds_distance(
                            maze,
                            start,
                            distance_map@,
                            depth,
                            u,
                            u.len() - 1,
                        );
                    }
                } else {
                    lemma_walk_cannot_be_shorter(maze, start, distance_map@, u, finish);
                }
            }
        }
        forward
    }
}

} // verus!
