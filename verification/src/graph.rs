use crate::maze::{neighbour_of, Maze};
use crate::pair::Pair;
use crate::util::{opposite, Coord, EAST, NORTH, SOUTH, WEST};
use crate::walks::{chained, lemma_cut_short, lemma_two_ways_close_a_cycle};
use vstd::prelude::*;

verus! {

impl Maze {
    /// The passage on the side `dir` of `a` leads to `b`.
    pub open spec fn leads(&self, a: Coord, dir: usize, b: Coord) -> bool {
        self.passage(a, dir) && neighbour_of(a, dir) == b
    }

    /// `b` lies next to `a` and the wall of `a` that faces it is open.
    pub open spec fn linked(&self, a: Coord, b: Coord) -> bool {
        ||| self.leads(a, NORTH, b)
        ||| self.leads(a, EAST, b)
        ||| self.leads(a, SOUTH, b)
        ||| self.leads(a, WEST, b)
    }

    /// A walk: cells of the grid, each linked to the next.
    pub open spec fn is_walk(&self, w: Seq<Coord>) -> bool {
        &&& w.len() > 0
        &&& self.in_bounds(w[0])
        &&& forall|i: int| 0 <= i < w.len() - 1 ==> self.linked(#[trigger] w[i], w[i + 1])
    }

    /// A walk that begins at `a` and ends at `b`.
    pub open spec fn walk_between(&self, w: Seq<Coord>, a: Coord, b: Coord) -> bool {
        self.is_walk(w) && w.first() == a && w.last() == b
    }

    /// Some walk leads from `a` to `b`.
    pub open spec fn joined(&self, a: Coord, b: Coord) -> bool {
        exists|w: Seq<Coord>| self.walk_between(w, a, b)
    }

    /// The shortest walk from `a` to `b` takes `n` steps.
    pub open spec fn shortest(&self, a: Coord, b: Coord, n: int) -> bool {
        &&& exists|w: Seq<Coord>| self.walk_between(w, a, b) && w.len() == n + 1
        &&& forall|w: Seq<Coord>| self.walk_between(w, a, b) ==> w.len() >= n + 1
    }

    /// The number of steps of the shortest walk from `a` to `b`, and `-1` where no
    /// walk leads from `a` to `b`.
    pub open spec fn distance(&self, a: Coord, b: Coord) -> int {
        if self.joined(a, b) {
            choose|n: int| self.shortest(a, b, n)
        } else {
            -1
        }
    }

    /// Among the walks between two cells one is shortest.
    pub proof fn lemma_shortest_exists(&self, w: Seq<Coord>, a: Coord, b: Coord) -> (n: int)
        requires
            self.walk_between(w, a, b),
        ensures
            self.shortest(a, b, n),
            0 <= n < w.len(),
        decreases w.len(),
    {
        if forall|u: Seq<Coord>| self.walk_between(u, a, b) ==> u.len() >= w.len() {
            w.len() - 1
        } else {
            let u = choose|u: Seq<Coord>| self.walk_between(u, a, b) && u.len() < w.len();
            self.lemma_shortest_exists(u, a, b)
        }
    }

    /// The distance is the number of steps of the shortest walk.
    pub proof fn lemma_distance(&self, a: Coord, b: Coord, n: int)
        requires
            self.shortest(a, b, n),
        ensures
            self.joined(a, b),
            self.distance(a, b) == n,
            n >= 0,
    {
        let w = choose|w: Seq<Coord>| self.walk_between(w, a, b) && w.len() == n + 1;
        assert(self.joined(a, b));
        let m = choose|m: int| self.shortest(a, b, m);
        let v = choose|v: Seq<Coord>| self.walk_between(v, a, b) && v.len() == m + 1;
        assert(v.len() >= n + 1);
        assert(w.len() >= m + 1);
    }

    /// Every cell can be walked to from every other.
    pub open spec fn is_connected(&self) -> bool {
        forall|a: Coord, b: Coord|
            self.in_bounds(a) && self.in_bounds(b) ==> #[trigger] self.joined(a, b)
    }

    /// A closed walk through three or more cells that visits none of them twice.
    pub open spec fn is_cycle(&self, w: Seq<Coord>) -> bool {
        &&& w.len() >= 3
        &&& w.no_duplicates()
        &&& self.is_walk(w)
        &&& self.linked(w.last(), w.first())
    }

    /// The passages close no cycle.
    pub open spec fn is_acyclic(&self) -> bool {
        forall|w: Seq<Coord>| !self.is_cycle(w)
    }

    /// The passages of the grid, each named once: by its western or northern end
    /// and the side on which it leaves that cell.
    pub open spec fn passages(&self) -> Set<(Coord, usize)> {
        Set::new(|e: (Coord, usize)| (e.1 == EAST || e.1 == SOUTH) && self.passage(e.0, e.1))
    }

    /// The cells of the grid.
    pub open spec fn cell_set(&self) -> Set<Coord> {
        Set::new(|c: Coord| self.in_bounds(c))
    }

    /// A perfect maze: the passages form a tree that spans the grid. Every cell
    /// can be walked to from every other, no walk closes a cycle, and there is one
    /// passage less than there are cells.
    pub open spec fn is_perfect(&self) -> bool {
        &&& self.is_connected()
        &&& self.is_acyclic()
        &&& self.passages().finite()
        &&& self.passages().len() + 1 == self.width * self.height
    }

    /// The grid has `width * height` cells.
    pub proof fn lemma_cell_count(&self)
        requires
            self.width >= 1,
        ensures
            self.cell_set().finite(),
            self.cell_set().len() == self.width * self.height,
    {
        let w = self.width as int;
        let count = self.width * self.height;
        assert(count >= 0) by (nonlinear_arith)
            requires
                count == self.width * self.height,
        ;
        let places = vstd::set_lib::set_int_range(0, count);
        vstd::set_lib::lemma_int_range(0, count);
        let at = |i: int| Pair { x: (i % w) as usize, y: (i / w) as usize };
        assert forall|i: int| #[trigger] places.contains(i) implies 0 <= i % w < w && 0 <= i / w
            < self.height && (i / w) * w + i % w == i by {
            vstd::arithmetic::div_mod::lemma_fundamental_div_mod(i, w);
            vstd::arithmetic::div_mod::lemma_mod_pos_bound(i, w);
            vstd::arithmetic::div_mod::lemma_div_pos_is_pos(i, w);
            assert(w * (i / w) == (i / w) * w) by (nonlinear_arith);
            if i / w >= self.height {
                assert((i / w) * w >= self.height * w) by (nonlinear_arith)
                    requires
                        i / w >= self.height,
                        w >= 0,
                ;
                assert(self.height * w == self.width * self.height) by (nonlinear_arith)
                    requires
                        w == self.width,
                ;
            }
        }
        assert forall|i: int, j: int|
            places.contains(i) && places.contains(j) && #[trigger] at(i) == #[trigger] at(
                j,
            ) implies i == j by {
            assert((i / w) * w + i % w == i);
            assert((j / w) * w + j % w == j);
        }
        assert(places.map(at) =~= self.cell_set()) by {
            assert forall|c: Coord| self.cell_set().contains(c) implies places.map(at).contains(
                c,
            ) by {
                let i = self.cell_index(c);
                crate::maze::lemma_index_in_range(w, self.height as int, c.x as int, c.y as int);
                vstd::arithmetic::div_mod::lemma_fundamental_div_mod_converse(
                    i,
                    w,
                    c.y as int,
                    c.x as int,
                );
                assert(places.contains(i) && at(i) == c);
            }
            assert forall|c: Coord| places.map(at).contains(c) implies self.cell_set().contains(
                c,
            ) by {
                let i = choose|i: int| places.contains(i) && at(i) == c;
                assert(places.contains(i));
            }
        }
        vstd::set_lib::lemma_map_size(places, self.cell_set(), at);
    }

    /// A passage can be walked in both directions.
    pub proof fn lemma_linked_back(&self, a: Coord, b: Coord)
        requires
            self.wf(),
            self.linked(a, b),
        ensures
            self.linked(b, a),
            self.in_bounds(a),
            self.in_bounds(b),
            a != b,
    {
        let dir: usize = if self.leads(a, NORTH, b) {
            NORTH
        } else if self.leads(a, EAST, b) {
            EAST
        } else if self.leads(a, SOUTH, b) {
            SOUTH
        } else {
            WEST
        };
        self.lemma_neighbour_back(a, dir);
        self.lemma_wall_symmetry(a, dir);
        assert(self.leads(b, opposite(dir), a));
    }

    /// Every cell of a walk lies in the grid.
    pub proof fn lemma_walk_in_bounds(&self, w: Seq<Coord>, i: int)
        requires
            self.is_walk(w),
            0 <= i < w.len(),
        ensures
            self.in_bounds(w[i]),
    {
        if i > 0 {
            assert(self.linked(w[i - 1], w[i - 1 + 1]));
        }
    }

    /// A single cell is a walk from itself to itself.
    pub proof fn lemma_walk_single(&self, c: Coord)
        requires
            self.in_bounds(c),
        ensures
            self.walk_between(seq![c], c, c),
            self.joined(c, c),
    {
        assert(self.walk_between(seq![c], c, c));
    }

    /// A walk can be continued by one step.
    pub proof fn lemma_walk_push(&self, w: Seq<Coord>, a: Coord, b: Coord, c: Coord)
        requires
            self.walk_between(w, a, b),
            self.linked(b, c),
        ensures
            self.walk_between(w.push(c), a, c),
    {
        let v = w.push(c);
        assert forall|i: int| 0 <= i < v.len() - 1 implies self.linked(#[trigger] v[i], v[i + 1]) by {
            if i < w.len() - 1 {
                assert(self.linked(w[i], w[i + 1]));
            }
        }
    }

    /// Two walks, the second beginning where the first ends, make one.
    pub proof fn lemma_walk_concat(&self, v: Seq<Coord>, w: Seq<Coord>, a: Coord, b: Coord, c: Coord)
        requires
            self.walk_between(v, a, b),
            self.walk_between(w, b, c),
        ensures
            self.walk_between(v + w.subrange(1, w.len() as int), a, c),
    {
        let u = v + w.subrange(1, w.len() as int);
        assert forall|i: int| 0 <= i < u.len() - 1 implies self.linked(#[trigger] u[i], u[i + 1]) by {
            if i < v.len() - 1 {
                assert(self.linked(v[i], v[i + 1]));
            } else {
                let k = i - (v.len() - 1);
                assert(self.linked(w[k], w[k + 1]));
                assert(u[i + 1] == w[k + 1]);
                if k == 0 {
                    assert(u[i] == v.last());
                } else {
                    assert(u[i] == w[k]);
                }
            }
        }
    }

    /// A walk read backwards is a walk.
    pub proof fn lemma_walk_reverse(&self, w: Seq<Coord>, a: Coord, b: Coord)
        requires
            self.wf(),
            self.walk_between(w, a, b),
        ensures
            self.walk_between(w.reverse(), b, a),
    {
        let r = w.reverse();
        self.lemma_walk_in_bounds(w, w.len() - 1);
        assert forall|i: int| 0 <= i < r.len() - 1 implies self.linked(#[trigger] r[i], r[i + 1]) by {
            let k = w.len() - 2 - i;
            assert(self.linked(w[k], w[k + 1]));
            self.lemma_linked_back(w[k], w[k + 1]);
        }
    }

    /// Being joined is symmetric and transitive.
    pub proof fn lemma_joined_via(&self, a: Coord, b: Coord, c: Coord)
        requires
            self.wf(),
            self.joined(a, b),
            self.joined(c, b),
        ensures
            self.joined(a, c),
    {
        let v = choose|v: Seq<Coord>| self.walk_between(v, a, b);
        let w = choose|w: Seq<Coord>| self.walk_between(w, c, b);
        self.lemma_walk_reverse(w, c, b);
        self.lemma_walk_concat(v, w.reverse(), a, b, c);
    }

    /// Where no walk closes a cycle, two walks between the same two cells that visit
    /// no cell twice are the same walk: there is only one way from a cell to another.
    pub proof fn lemma_one_simple_walk(&self, p: Seq<Coord>, q: Seq<Coord>, a: Coord, b: Coord)
        requires
            self.wf(),
            self.is_acyclic(),
            self.walk_between(p, a, b),
            self.walk_between(q, a, b),
            p.no_duplicates(),
            q.no_duplicates(),
        ensures
            p == q,
    {
        if p != q {
            let link = |x: Coord, y: Coord| self.linked(x, y);
            assert forall|x: Coord, y: Coord| #[trigger] link(x, y) implies link(y, x) by {
                self.lemma_linked_back(x, y);
            }
            assert(chained(link, p)) by {
                assert forall|i: int| 0 <= i < p.len() - 1 implies link(#[trigger] p[i], p[i + 1]) by {
                    assert(self.linked(p[i], p[i + 1]));
                }
            }
            assert(chained(link, q)) by {
                assert forall|i: int| 0 <= i < q.len() - 1 implies link(#[trigger] q[i], q[i + 1]) by {
                    assert(self.linked(q[i], q[i + 1]));
                }
            }
            let c = lemma_two_ways_close_a_cycle(link, p, q);
            let n = choose|n: int| 0 <= n < p.len() && p[n] == c[0];
            self.lemma_walk_in_bounds(p, n);
            assert forall|i: int| 0 <= i < c.len() - 1 implies self.linked(
                #[trigger] c[i],
                c[i + 1],
            ) by {
                assert(link(c[i], c[i + 1]));
            }
            assert(link(c.last(), c.first()));
            assert(self.is_cycle(c));
        }
    }

    /// Between two joined cells there is a walk that visits no cell twice.
    pub proof fn lemma_simple_walk_exists(&self, a: Coord, b: Coord) -> (v: Seq<Coord>)
        requires
            self.joined(a, b),
        ensures
            self.walk_between(v, a, b),
            v.no_duplicates(),
    {
        let w = choose|w: Seq<Coord>| self.walk_between(w, a, b);
        let link = |x: Coord, y: Coord| self.linked(x, y);
        assert(chained(link, w)) by {
            assert forall|i: int| 0 <= i < w.len() - 1 implies link(#[trigger] w[i], w[i + 1]) by {
                assert(self.linked(w[i], w[i + 1]));
            }
        }
        let v = lemma_cut_short(link, w);
        assert forall|i: int| 0 <= i < v.len() - 1 implies self.linked(#[trigger] v[i], v[i + 1]) by {
            assert(link(v[i], v[i + 1]));
        }
        v
    }

    /// In a perfect maze exactly one walk that visits no cell twice leads from a cell
    /// to another.
    pub proof fn lemma_perfect_maze_has_one_way(&self, a: Coord, b: Coord) -> (way: Seq<Coord>)
        requires
            self.wf(),
            self.is_perfect(),
            self.in_bounds(a),
            self.in_bounds(b),
        ensures
            self.walk_between(way, a, b),
            way.no_duplicates(),
            forall|other: Seq<Coord>|
                self.walk_between(other, a, b) && other.no_duplicates() ==> other == way,
    {
        assert(self.joined(a, b));
        let way = self.lemma_simple_walk_exists(a, b);
        assert forall|other: Seq<Coord>|
            self.walk_between(other, a, b) && other.no_duplicates() implies other == way by {
            self.lemma_one_simple_walk(other, way, a, b);
        }
        way
    }

    /// The beginning of a walk is a walk.
    pub proof fn lemma_walk_prefix(&self, w: Seq<Coord>, n: int)
        requires
            self.is_walk(w),
            0 < n <= w.len(),
        ensures
            self.walk_between(w.subrange(0, n), w[0], w[n - 1]),
    {
        let v = w.subrange(0, n);
        assert forall|i: int| 0 <= i < v.len() - 1 implies self.linked(#[trigger] v[i], v[i + 1]) by {
            assert(self.linked(w[i], w[i + 1]));
        }
    }

    /// Between joined cells the distance is the number of steps of a shortest walk.
    pub proof fn lemma_distance_of_joined(&self, a: Coord, b: Coord)
        requires
            self.joined(a, b),
        ensures
            self.shortest(a, b, self.distance(a, b)),
            self.distance(a, b) >= 0,
    {
        let w = choose|w: Seq<Coord>| self.walk_between(w, a, b);
        let n = self.lemma_shortest_exists(w, a, b);
        self.lemma_distance(a, b, n);
    }

    /// Only the start lies at distance 0.
    pub proof fn lemma_distance_zero(&self, start: Coord, c: Coord)
        requires
            self.in_bounds(start),
        ensures
            self.distance(start, c) == 0 <==> c == start,
            self.distance(start, c) >= -1,
    {
        if c == start {
            self.lemma_walk_single(start);
            assert forall|u: Seq<Coord>| self.walk_between(u, start, start) implies u.len()
                >= 1 by {}
            self.lemma_distance(start, start, 0);
        }
        if self.joined(start, c) {
            self.lemma_distance_of_joined(start, c);
            if self.distance(start, c) == 0 {
                let w = choose|w: Seq<Coord>| self.walk_between(w, start, c) && w.len() == 1;
                assert(w[0] == w[w.len() - 1]);
            }
        }
    }

    /// Across a passage the distance from the start grows by one step at most: the
    /// cell behind the passage can be walked to as well.
    pub proof fn lemma_distance_step(&self, start: Coord, c: Coord, dir: usize)
        requires
            self.passage(c, dir),
            self.distance(start, c) >= 0,
        ensures
            0 <= self.distance(start, neighbour_of(c, dir)) <= self.distance(start, c) + 1,
    {
        let n = neighbour_of(c, dir);
        assert(self.joined(start, c));
        self.lemma_distance_of_joined(start, c);
        let w = choose|w: Seq<Coord>|
            self.walk_between(w, start, c) && w.len() == self.distance(start, c) + 1;
        assert(dir < 4);
        assert(self.leads(c, dir, n));
        self.lemma_walk_push(w, start, c, n);
        assert(self.joined(start, n));
        self.lemma_distance_of_joined(start, n);
    }

    /// Every cell that can be walked to, but the start, has a passage to a cell one
    /// step closer to the start.
    pub proof fn lemma_distance_way_back(&self, start: Coord, c: Coord) -> (dir: usize)
        requires
            self.wf(),
            self.distance(start, c) > 0,
        ensures
            dir < 4,
            self.passage(c, dir),
            self.distance(start, neighbour_of(c, dir)) == self.distance(start, c) - 1,
    {
        assert(self.joined(start, c));
        self.lemma_distance_of_joined(start, c);
        let d = self.distance(start, c);
        let w = choose|w: Seq<Coord>| self.walk_between(w, start, c) && w.len() == d + 1;
        let p = w[d - 1];
        assert(self.linked(w[d - 1], w[d - 1 + 1]));
        self.lemma_walk_prefix(w, d);
        assert(self.joined(start, p));
        self.lemma_distance_of_joined(start, p);
        assert(w.subrange(0, d).len() >= self.distance(start, p) + 1);
        self.lemma_linked_back(p, c);
        let forth = self.lemma_side_of(p, c);
        self.lemma_distance_step(start, p, forth);
        let dir = self.lemma_side_of(c, p);
        dir
    }
}

} // verus!
