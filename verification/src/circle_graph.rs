use crate::circle_maze::{cells_before, lemma_ring_sizes, ring_size, CircleMaze};
use crate::circle_maze_cell::CircleMazeCellDirection;
use crate::pair::Pair;
use crate::util::Coord;
use crate::walks::{chained, lemma_cut_short, lemma_two_ways_close_a_cycle};
use vstd::prelude::*;

verus! {

impl CircleMaze {
    /// The grid is well-formed and its walls are open in matched pairs.
    pub open spec fn sound(&self) -> bool {
        self.wf() && self.walls_pair_up()
    }

    /// One can step from `c` to its neighbour on the side `dir`.
    pub open spec fn passage(&self, c: Coord, dir: CircleMazeCellDirection) -> bool {
        self.has_neighbour(c, dir) && self.wall_open(c, dir)
    }

    /// The passage on the side `dir` of `a` leads to `b`.
    pub open spec fn leads(&self, a: Coord, dir: CircleMazeCellDirection, b: Coord) -> bool {
        self.passage(a, dir) && Self::neighbour_of(a, dir) == b
    }

    /// `b` lies next to `a` and the wall of `a` that faces it is open.
    #[verifier::opaque]
    pub open spec fn linked(&self, a: Coord, b: Coord) -> bool {
        exists|dir: CircleMazeCellDirection| #[trigger] self.leads(a, dir, b)
    }

    /// A walk: cells of the grid, each linked to the next.
    pub open spec fn is_walk(&self, w: Seq<Coord>) -> bool {
        &&& w.len() > 0
        &&& self.in_bounds(w[0])
        &&& forall|i: int| 0 <= i < w.len() - 1 ==> self.linked(#[trigger] w[i], w[i + 1])
    }

    /// A walk that begins at `a` and ends at `b`.
    pub open spec fn walk_between(&self, w: Seq<Coord>, a: Coord, b: Coord) -> bool {
        self.is_walk(w) && w.first() == a && w.last() == b
    }

    /// Some walk leads from `a` to `b`.
    pub open spec fn joined(&self, a: Coord, b: Coord) -> bool {
        exists|w: Seq<Coord>| self.walk_between(w, a, b)
    }

    /// The shortest walk from `a` to `b` takes `n` steps.
    pub open spec fn shortest(&self, a: Coord, b: Coord, n: int) -> bool {
        &&& exists|w: Seq<Coord>| self.walk_between(w, a, b) && w.len() == n + 1
        &&& forall|w: Seq<Coord>| self.walk_between(w, a, b) ==> w.len() >= n + 1
    }

    /// The number of steps of the shortest walk from `a` to `b`, and `-1` where no
    /// walk leads from `a` to `b`.
    pub open spec fn distance(&self, a: Coord, b: Coord) -> int {
        if self.joined(a, b) {
            choose|n: int| self.shortest(a, b, n)
        } else {
            -1
        }
    }

    /// Among the walks between two cells one is shortest.
    pub proof fn lemma_shortest_exists(&self, w: Seq<Coord>, a: Coord, b: Coord) -> (n: int)
        requires
            self.walk_between(w, a, b),
        ensures
            self.shortest(a, b, n),
            0 <= n < w.len(),
        decreases w.len(),
    {
        if forall|u: Seq<Coord>| self.walk_between(u, a, b) ==> u.len() >= w.len() {
            w.len() - 1
        } else {
            let u = choose|u: Seq<Coord>| self.walk_between(u, a, b) && u.len() < w.len();
            self.lemma_shortest_exists(u, a, b)
        }
    }

    /// The distance is the number of steps of the shortest walk.
    pub proof fn lemma_distance(&self, a: Coord, b: Coord, n: int)
        requires
            self.shortest(a, b, n),
        ensures
            self.joined(a, b),
            self.distance(a, b) == n,
            n >= 0,
    {
        let w = choose|w: Seq<Coord>| self.walk_between(w, a, b) && w.len() == n + 1;
        assert(self.joined(a, b));
        let m = choose|m: int| self.shortest(a, b, m);
        let v = choose|v: Seq<Coord>| self.walk_between(v, a, b) && v.len() == m + 1;
        assert(v.len() >= n + 1);
        assert(w.len() >= m + 1);
    }

    /// Every cell can be walked to from every other.
    pub open spec fn is_connected(&self) -> bool {
        forall|a: Coord, b: Coord|
            self.in_bounds(a) && self.in_bounds(b) ==> #[trigger] self.joined(a, b)
    }

    /// A closed walk through three or more cells that visits none of them twice.
    pub open spec fn is_cycle(&self, w: Seq<Coord>) -> bool {
        &&& w.len() >= 3
        &&& w.no_duplicates()
        &&& self.is_walk(w)
        &&& self.linked(w.last(), w.first())
    }

    /// The passages close no cycle.
    pub open spec fn is_acyclic(&self) -> bool {
        forall|w: Seq<Coord>| !self.is_cycle(w)
    }

    /// The passages of the grid, each named once: by its western or inner end and the
    /// side on which it leaves that cell.
    pub open spec fn passages(&self) -> Set<(Coord, CircleMazeCellDirection)> {
        Set::new(
            |e: (Coord, CircleMazeCellDirection)|
                (e.1 is East || e.1 is North) && self.passage(e.0, e.1),
        )
    }

    /// The cells of the rings inside `ring`.
    pub open spec fn cells_inside(&self, ring: nat) -> Set<Coord> {
        Set::new(|c: Coord| self.in_bounds(c) && c.y < ring)
    }

    /// The cells of the grid.
    pub open spec fn cell_set(&self) -> Set<Coord> {
        Set::new(|c: Coord| self.in_bounds(c))
    }

    /// A perfect maze: the passages form a tree that spans the grid. Every cell
    /// can be walked to from every other, no walk closes a cycle, and there is one
    /// passage less than there are cells.
    pub open spec fn is_perfect(&self) -> bool {
        &&& self.is_connected()
        &&& self.is_acyclic()
        &&& self.passages().finite()
        &&& self.passages().len() + 1 == cells_before(self.height as nat)
    }

    /// The rings inside `ring` have `cells_before(ring)` cells.
    pub proof fn lemma_cells_inside(&self, ring: nat)
        requires
            ring <= self.height <= usize::MAX / 16,
        ensures
            self.cells_inside(ring).finite(),
            self.cells_inside(ring).len() == cells_before(ring),
        decreases ring,
    {
        if ring == 0 {
            assert(self.cells_inside(0) =~= Set::<Coord>::empty());
        } else {
            let r = (ring - 1) as nat;
            self.lemma_cells_inside(r);
            lemma_ring_sizes(r);
            let size = ring_size(r) as int;
            let columns = vstd::set_lib::set_int_range(0, size);
            vstd::set_lib::lemma_int_range(0, size);
            let at = |x: int| Pair { x: x as usize, y: r as usize };
            let row = columns.map(at);
            assert forall|x1: int, x2: int|
                columns.contains(x1) && columns.contains(x2) && #[trigger] at(x1) == #[trigger] at(
                    x2,
                ) implies x1 == x2 by {}
            vstd::set_lib::lemma_map_size(columns, row, at);
            let inner = self.cells_inside(r);
            assert(inner.disjoint(row)) by {
                assert forall|c: Coord| inner.contains(c) implies !row.contains(c) by {
                    if row.contains(c) {
                        let x = choose|x: int| columns.contains(x) && at(x) == c;
                    }
                }
            }
            assert(self.cells_inside(ring) =~= inner + row) by {
                assert forall|c: Coord| self.cells_inside(ring).contains(c) implies (inner
                    + row).contains(c) by {
                    if c.y == r {
                        assert(columns.contains(c.x as int) && at(c.x as int) == c);
                    }
                }
                assert forall|c: Coord| (inner + row).contains(c) implies self.cells_inside(
                    ring,
                ).contains(c) by {
                    if row.contains(c) {
                        let x = choose|x: int| columns.contains(x) && at(x) == c;
                    }
                }
            }
            vstd::set_lib::lemma_set_disjoint_lens(inner, row);
            vstd::set_lib::lemma_set_union_finite_iff(inner, row);
        }
    }

    /// The grid has `cells_before(height)` cells.
    pub proof fn lemma_cell_count(&self)
        requires
            self.height <= usize::MAX / 16,
        ensures
            self.cell_set().finite(),
            self.cell_set().len() == cells_before(self.height as nat),
    {
        self.lemma_cells_inside(self.height as nat);
        assert(self.cell_set() =~= self.cells_inside(self.height as nat));
    }

    /// A passage seen from its other end.
    pub proof fn lemma_passage_back(&self, c: Coord, dir: CircleMazeCellDirection)
        requires
            self.sound(),
            self.passage(c, dir),
        ensures
            self.passage(Self::neighbour_of(c, dir), Self::opposite_of(c, dir)),
            Self::neighbour_of(Self::neighbour_of(c, dir), Self::opposite_of(c, dir)) == c,
            Self::opposite_of(Self::neighbour_of(c, dir), Self::opposite_of(c, dir)) == dir,
            self.in_bounds(c),
            self.in_bounds(Self::neighbour_of(c, dir)),
            Self::neighbour_of(c, dir) != c,
    {
        self.lemma_neighbour_back(c, dir);
        self.lemma_wall_symmetry(c, dir);
    }

    /// The side of `a` on which the linked cell `b` lies.
    pub proof fn lemma_side_of(&self, a: Coord, b: Coord) -> (dir: CircleMazeCellDirection)
        requires
            self.linked(a, b),
        ensures
            self.leads(a, dir, b),
    {
        reveal(CircleMaze::linked);
        choose|dir: CircleMazeCellDirection| #[trigger] self.leads(a, dir, b)
    }

    /// A passage links the cells at its ends.
    pub proof fn lemma_leads_linked(&self, a: Coord, dir: CircleMazeCellDirection, b: Coord)
        requires
            self.leads(a, dir, b),
        ensures
            self.linked(a, b),
    {
        reveal(CircleMaze::linked);
    }

    /// A passage can be walked in both directions.
    pub proof fn lemma_linked_back(&self, a: Coord, b: Coord)
        requires
            self.sound(),
            self.linked(a, b),
        ensures
            self.linked(b, a),
            self.in_bounds(a),
            self.in_bounds(b),
            a != b,
    {
        let dir = self.lemma_side_of(a, b);
        self.lemma_passage_back(a, dir);
        self.lemma_leads_linked(b, Self::opposite_of(a, dir), a);
    }

    /// Every cell of a walk lies in the grid.
    pub proof fn lemma_walk_in_bounds(&self, w: Seq<Coord>, i: int)
        requires
            self.sound(),
            self.is_walk(w),
            0 <= i < w.len(),
        ensures
            self.in_bounds(w[i]),
    {
        if i > 0 {
            assert(self.linked(w[i - 1], w[i - 1 + 1]));
            self.lemma_linked_back(w[i - 1], w[i]);
        }
    }

    /// A single cell is a walk from itself to itself.
    pub proof fn lemma_walk_single(&self, c: Coord)
        requires
            self.in_bounds(c),
        ensures
            self.walk_between(seq![c], c, c),
            self.joined(c, c),
    {
        assert(self.walk_between(seq![c], c, c));
    }

    /// A walk can be continued by one step.
    pub proof fn lemma_walk_push(&self, w: Seq<Coord>, a: Coord, b: Coord, c: Coord)
        requires
            self.walk_between(w, a, b),
            self.linked(b, c),
        ensures
            self.walk_between(w.push(c), a, c),
    {
        let v = w.push(c);
        assert forall|i: int| 0 <= i < v.len() - 1 implies self.linked(#[trigger] v[i], v[i + 1]) by {
            if i < w.len() - 1 {
                assert(self.linked(w[i], w[i + 1]));
            }
        }
    }

    /// Two walks, the second beginning where the first ends, make one.
    pub proof fn lemma_walk_concat(&self, v: Seq<Coord>, w: Seq<Coord>, a: Coord, b: Coord, c: Coord)
        requires
            self.walk_between(v, a, b),
            self.walk_between(w, b, c),
        ensures
            self.walk_between(v + w.subrange(1, w.len() as int), a, c),
    {
        let u = v + w.subrange(1, w.len() as int);
        assert forall|i: int| 0 <= i < u.len() - 1 implies self.linked(#[trigger] u[i], u[i + 1]) by {
            if i < v.len() - 1 {
                assert(self.linked(v[i], v[i + 1]));
            } else {
                let k = i - (v.len() - 1);
                assert(self.linked(w[k], w[k + 1]));
                assert(u[i + 1] == w[k + 1]);
                if k == 0 {
                    assert(u[i] == v.last());
                } else {
                    assert(u[i] == w[k]);
                }
            }
        }
    }

    /// A walk read backwards is a walk.
    pub proof fn lemma_walk_reverse(&self, w: Seq<Coord>, a: Coord, b: Coord)
        requires
            self.sound(),
            self.walk_between(w, a, b),
        ensures
            self.walk_between(w.reverse(), b, a),
    {
        let r = w.reverse();
        self.lemma_walk_in_bounds(w, w.len() - 1);
        assert forall|i: int| 0 <= i < r.len() - 1 implies self.linked(#[trigger] r[i], r[i + 1]) by {
            let k = w.len() - 2 - i;
            assert(self.linked(w[k], w[k + 1]));
            self.lemma_linked_back(w[k], w[k + 1]);
        }
    }

    /// Two cells from which walks lead to one cell are joined.
    pub proof fn lemma_joined_via(&self, a: Coord, b: Coord, c: Coord)
        requires
            self.sound(),
            self.joined(a, b),
            self.joined(c, b),
        ensures
            self.joined(a, c),
    {
        let v = choose|v: Seq<Coord>| self.walk_between(v, a, b);
        let w = choose|w: Seq<Coord>| self.walk_between(w, c, b);
        self.lemma_walk_reverse(w, c, b);
        self.lemma_walk_concat(v, w.reverse(), a, b, c);
    }

    /// Where no walk closes a cycle, two walks between the same two cells that visit
    /// no cell twice are the same walk: there is only one way from a cell to another.
    pub proof fn lemma_one_simple_walk(&self, p: Seq<Coord>, q: Seq<Coord>, a: Coord, b: Coord)
        requires
            self.sound(),
            self.is_acyclic(),
            self.walk_between(p, a, b),
            self.walk_between(q, a, b),
            p.no_duplicates(),
            q.no_duplicates(),
        ensures
            p == q,
    {
        if p != q {
            let link = |x: Coord, y: Coord| self.linked(x, y);
            assert forall|x: Coord, y: Coord| #[trigger] link(x, y) implies link(y, x) by {
                self.lemma_linked_back(x, y);
            }
            assert(chained(link, p)) by {
                assert forall|i: int| 0 <= i < p.len() - 1 implies link(#[trigger] p[i], p[i + 1]) by {
                    assert(self.linked(p[i], p[i + 1]));
                }
            }
            assert(chained(link, q)) by {
                assert forall|i: int| 0 <= i < q.len() - 1 implies link(#[trigger] q[i], q[i + 1]) by {
                    assert(self.linked(q[i], q[i + 1]));
                }
            }
            let c = lemma_two_ways_close_a_cycle(link, p, q);
            let n = choose|n: int| 0 <= n < p.len() && p[n] == c[0];
            self.lemma_walk_in_bounds(p, n);
            assert forall|i: int| 0 <= i < c.len() - 1 implies self.linked(
                #[trigger] c[i],
                c[i + 1],
            ) by {
                assert(link(c[i], c[i + 1]));
            }
            assert(link(c.last(), c.first()));
            assert(self.is_cycle(c));
        }
    }

    /// Between two joined cells there is a walk that visits no cell twice.
    pub proof fn lemma_simple_walk_exists(&self, a: Coord, b: Coord) -> (v: Seq<Coord>)
        requires
            self.joined(a, b),
        ensures
            self.walk_between(v, a, b),
            v.no_duplicates(),
    {
        let w = choose|w: Seq<Coord>| self.walk_between(w, a, b);
        let link = |x: Coord, y: Coord| self.linked(x, y);
        assert(chained(link, w)) by {
            assert forall|i: int| 0 <= i < w.len() - 1 implies link(#[trigger] w[i], w[i + 1]) by {
                assert(self.linked(w[i], w[i + 1]));
            }
        }
        let v = lemma_cut_short(link, w);
        assert forall|i: int| 0 <= i < v.len() - 1 implies self.linked(#[trigger] v[i], v[i + 1]) by {
            assert(link(v[i], v[i + 1]));
        }
        v
    }

    /// In a perfect maze exactly one walk that visits no cell twice leads from a cell
    /// to another.
    pub proof fn lemma_perfect_maze_has_one_way(&self, a: Coord, b: Coord) -> (way: Seq<Coord>)
        requires
            self.sound(),
            self.is_perfect(),
            self.in_bounds(a),
            self.in_bounds(b),
        ensures
            self.walk_between(way, a, b),
            way.no_duplicates(),
            forall|other: Seq<Coord>|
                self.walk_between(other, a, b) && other.no_duplicates() ==> other == way,
    {
        assert(self.joined(a, b));
        let way = self.lemma_simple_walk_exists(a, b);
        assert forall|other: Seq<Coord>|
            self.walk_between(other, a, b) && other.no_duplicates() implies other == way by {
            self.lemma_one_simple_walk(other, way, a, b);
        }
        way
    }

    /// The beginning of a walk is a walk.
    pub proof fn lemma_walk_prefix(&self, w: Seq<Coord>, n: int)
        requires
            self.is_walk(w),
            0 < n <= w.len(),
        ensures
            self.walk_between(w.subrange(0, n), w[0], w[n - 1]),
    {
        let v = w.subrange(0, n);
        assert forall|i: int| 0 <= i < v.len() - 1 implies self.linked(#[trigger] v[i], v[i + 1]) by {
            assert(self.linked(w[i], w[i + 1]));
        }
    }

    /// Between joined cells the distance is the number of steps of a shortest walk.
    pub proof fn lemma_distance_of_joined(&self, a: Coord, b: Coord)
        requires
            self.joined(a, b),
        ensures
            self.shortest(a, b, self.distance(a, b)),
            self.distance(a, b) >= 0,
    {
        let w = choose|w: Seq<Coord>| self.walk_between(w, a, b);
        let n = self.lemma_shortest_exists(w, a, b);
        self.lemma_distance(a, b, n);
    }

    /// Only the start lies at distance 0.
    pub proof fn lemma_distance_zero(&self, start: Coord, c: Coord)
        requires
            self.in_bounds(start),
        ensures
            self.distance(start, c) == 0 <==> c == start,
            self.distance(start, c) >= -1,
    {
        if c == start {
            self.lemma_walk_single(start);
            assert forall|u: Seq<Coord>| self.walk_between(u, start, start) implies u.len()
                >= 1 by {}
            self.lemma_distance(start, start, 0);
        }
        if self.joined(start, c) {
            self.lemma_distance_of_joined(start, c);
            if self.distance(start, c) == 0 {
                let w = choose|w: Seq<Coord>| self.walk_between(w, start, c) && w.len() == 1;
                assert(w[0] == w[w.len() - 1]);
            }
        }
    }

    /// Across a passage the distance from the start grows by one step at most: the
    /// cell behind the passage can be walked to as well.
    pub proof fn lemma_distance_step(&self, start: Coord, c: Coord, dir: CircleMazeCellDirection)
        requires
            self.passage(c, dir),
            self.distance(start, c) >= 0,
        ensures
            0 <= self.distance(start, Self::neighbour_of(c, dir)) <= self.distance(start, c) + 1,
    {
        let n = Self::neighbour_of(c, dir);
        assert(self.joined(start, c));
        self.lemma_distance_of_joined(start, c);
        let w = choose|w: Seq<Coord>|
            self.walk_between(w, start, c) && w.len() == self.distance(start, c) + 1;
        self.lemma_leads_linked(c, dir, n);
        self.lemma_walk_push(w, start, c, n);
        assert(self.joined(start, n));
        self.lemma_distance_of_joined(start, n);
    }

    /// Every cell that can be walked to, but the start, has a passage to a cell one
    /// step closer to the start.
    pub proof fn lemma_distance_way_back(&self, start: Coord, c: Coord) -> (dir:
        CircleMazeCellDirection)
        requires
            self.sound(),
            self.distance(start, c) > 0,
        ensures
            self.passage(c, dir),
            self.distance(start, Self::neighbour_of(c, dir)) == self.distance(start, c) - 1,
    {
        assert(self.joined(start, c));
        self.lemma_distance_of_joined(start, c);
        let d = self.distance(start, c);
        let w = choose|w: Seq<Coord>| self.walk_between(w, start, c) && w.len() == d + 1;
        let p = w[d - 1];
        assert(self.linked(w[d - 1], w[d - 1 + 1]));
        self.lemma_walk_prefix(w, d);
        assert(self.joined(start, p));
        self.lemma_distance_of_joined(start, p);
        assert(w.subrange(0, d).len() >= self.distance(start, p) + 1);
        self.lemma_linked_back(p, c);
        let forth = self.lemma_side_of(p, c);
        self.lemma_distance_step(start, p, forth);
        let dir = self.lemma_side_of(c, p);
        dir
    }
}

} // verus!
