use crate::circle_maze::{cells_before, CircleMaze};
use crate::circle_maze_cell::CircleMazeCellDirection;
use crate::util::Coord;
use vstd::prelude::*;

verus! {

impl CircleMaze {
    /// The passage on the side `dir` of `c` leads to a cell of lower rank.
    pub open spec fn descends(
        &self,
        rank: Map<Coord, nat>,
        c: Coord,
        dir: CircleMazeCellDirection,
    ) -> bool {
        self.passage(c, dir) && rank[Self::neighbour_of(c, dir)] < rank[c]
    }

    /// Some passage of `c` leads to a cell of lower rank.
    pub open spec fn has_parent(&self, rank: Map<Coord, nat>, c: Coord) -> bool {
        exists|dir: CircleMazeCellDirection| #[trigger] self.descends(rank, c, dir)
    }

    /// The open walls form a tree on the cells that `rank` ranks, rooted at `root`:
    /// only ranked cells have open walls, each of them towards a neighbour; a
    /// passage joins cells of different rank; every ranked cell but the root has
    /// exactly one passage to a cell of lower rank, and the root has none.
    #[verifier::opaque]
    pub open spec fn tree_on(&self, rank: Map<Coord, nat>, root: Coord) -> bool {
        &&& self.sound()
        &&& rank.contains_key(root)
        &&& forall|c: Coord| #[trigger] rank.contains_key(c) ==> self.in_bounds(c)
        &&& forall|c: Coord, dir: CircleMazeCellDirection|
            self.in_bounds(c) && self.cell(c).has_side(dir) && #[trigger] self.wall_open(c, dir)
                ==> self.has_neighbour(c, dir) && rank.contains_key(c) && rank[c]
                != rank[Self::neighbour_of(c, dir)]
        &&& forall|c: Coord| #[trigger] rank.contains_key(c) && c != root ==> self.has_parent(rank, c)
        &&& forall|c: Coord, d1: CircleMazeCellDirection, d2: CircleMazeCellDirection|
            #[trigger] self.descends(rank, c, d1) && #[trigger] self.descends(rank, c, d2) ==> d1
                == d2
        &&& forall|dir: CircleMazeCellDirection| !#[trigger] self.descends(rank, root, dir)
    }

    /// Every cell of the grid is ranked.
    pub open spec fn all_ranked(&self, rank: Map<Coord, nat>) -> bool {
        forall|c: Coord| self.in_bounds(c) ==> #[trigger] rank.contains_key(c)
    }

    /// In a tree, the cell behind a passage is ranked too.
    pub proof fn lemma_tree_passage(
        &self,
        rank: Map<Coord, nat>,
        root: Coord,
        c: Coord,
        dir: CircleMazeCellDirection,
    )
        requires
            self.tree_on(rank, root),
            self.passage(c, dir),
        ensures
            rank.contains_key(c),
            rank.contains_key(Self::neighbour_of(c, dir)),
            rank[c] != rank[Self::neighbour_of(c, dir)],
            self.passage(Self::neighbour_of(c, dir), Self::opposite_of(c, dir)),
            Self::neighbour_of(Self::neighbour_of(c, dir), Self::opposite_of(c, dir)) == c,
    {
        reveal(CircleMaze::tree_on);
        self.lemma_passage_back(c, dir);
        self.lemma_sides(c, dir);
        let n = Self::neighbour_of(c, dir);
        let o = Self::opposite_of(c, dir);
        self.lemma_sides(n, o);
        assert(self.wall_open(n, o));
    }

    /// What a tree says of the grid it stands in.
    pub proof fn lemma_tree_sound(&self, rank: Map<Coord, nat>, root: Coord)
        requires
            self.tree_on(rank, root),
        ensures
            self.sound(),
            self.in_bounds(root),
            rank.contains_key(root),
    {
        reveal(CircleMaze::tree_on);
    }

    /// No cell of a tree has two passages to cells of lower rank, and the root has
    /// none.
    pub proof fn lemma_one_way_down(
        &self,
        rank: Map<Coord, nat>,
        root: Coord,
        c: Coord,
        d1: CircleMazeCellDirection,
        d2: CircleMazeCellDirection,
    )
        requires
            self.tree_on(rank, root),
            self.descends(rank, c, d1),
            self.descends(rank, c, d2),
        ensures
            d1 == d2,
            c != root,
    {
        reveal(CircleMaze::tree_on);
    }

    /// From every ranked cell of a tree a walk leads to the root.
    pub proof fn lemma_joined_to_root(&self, rank: Map<Coord, nat>, root: Coord, c: Coord)
        requires
            self.tree_on(rank, root),
            rank.contains_key(c),
        ensures
            self.joined(c, root),
        decreases rank[c],
    {
        self.lemma_tree_sound(rank, root);
        if c == root {
            self.lemma_walk_single(c);
        } else {
            assert(self.has_parent(rank, c)) by {
                reveal(CircleMaze::tree_on);
            }
            let dir = choose|dir: CircleMazeCellDirection| #[trigger] self.descends(rank, c, dir);
            let p = Self::neighbour_of(c, dir);
            self.lemma_tree_passage(rank, root, c, dir);
            self.lemma_joined_to_root(rank, root, p);
            let v = choose|v: Seq<Coord>| self.walk_between(v, p, root);
            self.lemma_walk_single(c);
            self.lemma_leads_linked(c, dir, p);
            self.lemma_walk_push(seq![c], c, c, p);
            self.lemma_walk_concat(seq![c].push(p), v, c, p, root);
        }
    }

    /// A position of the walk whose cell has the highest rank.
    proof fn lemma_highest(&self, rank: Map<Coord, nat>, w: Seq<Coord>, n: int) -> (m: int)
        requires
            0 < n <= w.len(),
        ensures
            0 <= m < n,
            forall|i: int| 0 <= i < n ==> rank[#[trigger] w[i]] <= rank[w[m]],
        decreases n,
    {
        if n == 1 {
            0
        } else {
            let m = self.lemma_highest(rank, w, n - 1);
            if rank[w[n - 1]] > rank[w[m]] {
                n - 1
            } else {
                m
            }
        }
    }

    /// No cell of a tree is linked to two cells of which neither has a higher rank.
    proof fn lemma_no_peak(
        &self,
        rank: Map<Coord, nat>,
        root: Coord,
        top: Coord,
        one: Coord,
        other: Coord,
    )
        requires
            self.tree_on(rank, root),
            self.linked(top, one),
            self.linked(top, other),
            rank[one] <= rank[top],
            rank[other] <= rank[top],
        ensures
            one == other,
    {
        let d1 = self.lemma_side_of(top, one);
        let d2 = self.lemma_side_of(top, other);
        self.lemma_tree_passage(rank, root, top, d1);
        self.lemma_tree_passage(rank, root, top, d2);
        assert(self.descends(rank, top, d1));
        assert(self.descends(rank, top, d2));
        self.lemma_one_way_down(rank, root, top, d1, d2);
    }

    /// In a cycle the cell at `m` is linked to the cell after it and to the cell
    /// before it, and these two differ.
    proof fn lemma_cycle_around(&self, w: Seq<Coord>, m: int)
        requires
            self.sound(),
            self.is_cycle(w),
            0 <= m < w.len(),
        ensures
            self.linked(w[m], w[if m == w.len() - 1 { 0 } else { m + 1 }]),
            self.linked(w[m], w[if m == 0 { w.len() - 1 } else { m - 1 }]),
            w[if m == w.len() - 1 { 0 } else { m + 1 }] != w[if m == 0 { w.len() - 1 } else { m - 1 }],
    {
        let n = w.len() as int;
        if m < n - 1 {
            assert(self.linked(w[m], w[m + 1]));
        }
        if m > 0 {
            assert(self.linked(w[m - 1], w[m - 1 + 1]));
            self.lemma_linked_back(w[m - 1], w[m]);
        } else {
            self.lemma_linked_back(w[n - 1], w[0]);
        }
    }

    /// The passages of a tree close no cycle.
    pub proof fn lemma_tree_acyclic(&self, rank: Map<Coord, nat>, root: Coord)
        requires
            self.tree_on(rank, root),
        ensures
            self.is_acyclic(),
    {
        self.lemma_tree_sound(rank, root);
        assert forall|w: Seq<Coord>| !self.is_cycle(w) by {
            if self.is_cycle(w) {
                let n = w.len() as int;
                let m = self.lemma_highest(rank, w, n);
                let next = if m == n - 1 {
                    0
                } else {
                    m + 1
                };
                let prev = if m == 0 {
                    n - 1
                } else {
                    m - 1
                };
                self.lemma_cycle_around(w, m);
                assert(rank[w[next]] <= rank[w[m]]);
                assert(rank[w[prev]] <= rank[w[m]]);
                self.lemma_no_peak(rank, root, w[m], w[next], w[prev]);
            }
        }
    }

    /// The side on which the passage of `c` to a cell of lower rank leaves it.
    pub open spec fn parent_side(&self, rank: Map<Coord, nat>, c: Coord) -> CircleMazeCellDirection {
        choose|dir: CircleMazeCellDirection| #[trigger] self.descends(rank, c, dir)
    }

    /// The passage of `c` to a cell of lower rank, named by its western or inner end.
    pub open spec fn parent_passage(&self, rank: Map<Coord, nat>, c: Coord) -> (
        Coord,
        CircleMazeCellDirection,
    ) {
        let side = self.parent_side(rank, c);
        if side is East || side is North {
            (c, side)
        } else {
            (Self::neighbour_of(c, side), Self::opposite_of(c, side))
        }
    }

    /// In a tree that spans the grid every cell but the root owns one passage, the
    /// one that leads to a cell of lower rank, and every passage is owned by one
    /// cell. So there is one passage less than there are cells.
    pub proof fn lemma_tree_passage_count(&self, rank: Map<Coord, nat>, root: Coord)
        requires
            self.tree_on(rank, root),
            self.all_ranked(rank),
        ensures
            self.passages().finite(),
            self.passages().len() + 1 == cells_before(self.height as nat),
    {
        self.lemma_tree_sound(rank, root);
        self.lemma_cell_count();
        let others = self.cell_set().remove(root);
        let owned = |c: Coord| self.parent_passage(rank, c);
        assert forall|c: Coord| others.contains(c) implies self.descends(
            rank,
            c,
            self.parent_side(rank, c),
        ) && self.passages().contains(#[trigger] owned(c)) by {
            assert(rank.contains_key(c));
            assert(self.has_parent(rank, c)) by {
                reveal(CircleMaze::tree_on);
            }
            let side = self.parent_side(rank, c);
            self.lemma_tree_passage(rank, root, c, side);
            self.lemma_passage_back(c, side);
        }
        assert forall|a: Coord, b: Coord|
            others.contains(a) && others.contains(b) && #[trigger] owned(a) == #[trigger] owned(
                b,
            ) implies a == b by {
            let sa = self.parent_side(rank, a);
            let sb = self.parent_side(rank, b);
            assert(self.passages().contains(owned(a)));
            assert(self.passages().contains(owned(b)));
            self.lemma_tree_passage(rank, root, a, sa);
            self.lemma_tree_passage(rank, root, b, sb);
            self.lemma_passage_back(a, sa);
            self.lemma_passage_back(b, sb);
        }
        assert(others.map(owned) =~= self.passages()) by {
            assert forall|e: (Coord, CircleMazeCellDirection)|
                self.passages().contains(e) implies others.map(owned).contains(e) by {
                let a = e.0;
                let b = Self::neighbour_of(e.0, e.1);
                let back = Self::opposite_of(e.0, e.1);
                self.lemma_tree_passage(rank, root, a, e.1);
                self.lemma_passage_back(a, e.1);
                if rank[b] < rank[a] {
                    assert(self.descends(rank, a, e.1));
                    self.lemma_one_way_down(rank, root, a, e.1, self.parent_side(rank, a));
                    assert(others.contains(a) && owned(a) == e);
                } else {
                    assert(self.descends(rank, b, back));
                    self.lemma_one_way_down(rank, root, b, back, self.parent_side(rank, b));
                    assert(others.contains(b) && owned(b) == e);
                }
            }
            assert forall|e: (Coord, CircleMazeCellDirection)|
                others.map(owned).contains(e) implies self.passages().contains(e) by {
                let c = choose|c: Coord| others.contains(c) && owned(c) == e;
                assert(self.passages().contains(owned(c)));
            }
        }
        vstd::set_lib::lemma_map_size(others, self.passages(), owned);
    }

    /// A tree that ranks every cell of the grid makes the maze perfect.
    pub proof fn lemma_spanning_tree_is_perfect(&self, rank: Map<Coord, nat>, root: Coord)
        requires
            self.tree_on(rank, root),
            self.all_ranked(rank),
        ensures
            self.is_perfect(),
    {
        self.lemma_tree_passage_count(rank, root);
        self.lemma_tree_acyclic(rank, root);
        self.lemma_tree_sound(rank, root);
        assert forall|a: Coord, b: Coord| self.in_bounds(a) && self.in_bounds(b) implies #[trigger]
            self.joined(a, b) by {
            assert(rank.contains_key(a));
            assert(rank.contains_key(b));
            self.lemma_joined_to_root(rank, root, a);
            self.lemma_joined_to_root(rank, root, b);
            self.lemma_joined_via(a, root, b);
        }
    }

    /// A single ranked cell in a grid without open walls is a tree.
    pub proof fn lemma_tree_begins(&self, root: Coord)
        requires
            self.sound(),
            self.in_bounds(root),
            forall|c: Coord| #[trigger] self.in_bounds(c) ==> !self.reached(c),
        ensures
            self.tree_on(Map::<Coord, nat>::empty().insert(root, 0), root),
    {
        reveal(CircleMaze::tree_on);
        let rank = Map::<Coord, nat>::empty().insert(root, 0);
        assert forall|c: Coord, dir: CircleMazeCellDirection|
            self.in_bounds(c) && self.cell(c).has_side(dir) implies !#[trigger] self.wall_open(
            c,
            dir,
        ) by {
            assert(self.cell_fits(c));
            self.cell(c).lemma_reachable();
        }
        assert forall|c: Coord, dir: CircleMazeCellDirection| !#[trigger] self.descends(
            rank,
            c,
            dir,
        ) by {
            if self.passage(c, dir) {
                self.lemma_sides(c, dir);
            }
        }
    }

    /// `after` is `self` with the wall between `a` and its neighbour on the side `dir`
    /// opened from both sides, and nothing else changed.
    pub open spec fn opened_between(
        &self,
        after: &CircleMaze,
        a: Coord,
        dir: CircleMazeCellDirection,
    ) -> bool {
        &&& after.height == self.height
        &&& after.sound()
        &&& forall|c: Coord, d: CircleMazeCellDirection|
            self.in_bounds(c) && self.cell(c).has_side(d) ==> #[trigger] after.wall_open(c, d) == (
            self.wall_open(c, d) || (c == a && d == dir) || (c == Self::neighbour_of(a, dir) && d
                == Self::opposite_of(a, dir)))
        &&& forall|c: Coord|
            #[trigger] self.in_bounds(c) && c != a && c != Self::neighbour_of(a, dir)
                ==> after.reached(c) == self.reached(c)
        &&& after.reached(a)
        &&& after.reached(Self::neighbour_of(a, dir))
    }

    /// Opening the wall between a ranked cell and a neighbour that is not ranked
    /// keeps the tree: the neighbour joins it, ranked `next`, above every other cell.
    pub proof fn lemma_attach(
        &self,
        after: &CircleMaze,
        rank: Map<Coord, nat>,
        root: Coord,
        next: nat,
        a: Coord,
        dir: CircleMazeCellDirection,
    )
        requires
            self.tree_on(rank, root),
            forall|c: Coord| #[trigger] rank.contains_key(c) ==> rank[c] < next,
            self.has_neighbour(a, dir),
            rank.contains_key(a) != rank.contains_key(Self::neighbour_of(a, dir)),
            self.opened_between(after, a, dir),
        ensures
            rank.contains_key(a) ==> after.tree_on(
                rank.insert(Self::neighbour_of(a, dir), next),
                root,
            ),
            !rank.contains_key(a) ==> after.tree_on(rank.insert(a, next), root),
    {
        reveal(CircleMaze::tree_on);
        let b = Self::neighbour_of(a, dir);
        let back = Self::opposite_of(a, dir);
        self.lemma_neighbour_back(a, dir);
        self.lemma_sides(a, dir);
        self.lemma_sides(b, back);
        let fresh = if rank.contains_key(a) {
            b
        } else {
            a
        };
        let fresh_dir = if rank.contains_key(a) {
            back
        } else {
            dir
        };
        let grown = rank.insert(fresh, next);
        assert forall|c: Coord| after.in_bounds(c) implies after.cell(c).has_defaults()
            == self.cell(c).has_defaults() && after.cell(c).norths() == self.cell(c).norths() by {
            assert(self.in_bounds(c));
            assert(self.cell_fits(c));
            assert(after.cell_fits(c));
        }
        assert forall|c: Coord, d: CircleMazeCellDirection|
            after.in_bounds(c) && after.cell(c).has_side(d) && #[trigger] after.wall_open(
                c,
                d,
            ) implies after.has_neighbour(c, d) && grown.contains_key(c) && grown[c]
            != grown[Self::neighbour_of(c, d)] by {
            assert(self.in_bounds(c));
            assert(self.cell(c).has_side(d));
            if self.wall_open(c, d) {
                assert(self.passage(c, d));
                self.lemma_tree_passage(rank, root, c, d);
            }
        }
        assert forall|c: Coord, d: CircleMazeCellDirection| #[trigger]
            after.descends(grown, c, d) implies (if c == fresh {
            d == fresh_dir
        } else {
            self.descends(rank, c, d)
        }) by {
            self.lemma_sides(c, d);
            assert(after.wall_open(c, d));
            if self.wall_open(c, d) {
                assert(self.passage(c, d));
                self.lemma_tree_passage(rank, root, c, d);
            }
        }
        assert forall|c: Coord| #[trigger] grown.contains_key(c) && c != root implies after.has_parent(
            grown,
            c,
        ) by {
            if c == fresh {
                assert(after.wall_open(fresh, fresh_dir));
                assert(after.descends(grown, fresh, fresh_dir));
            } else {
                assert(self.has_parent(rank, c));
                let d = choose|d: CircleMazeCellDirection| #[trigger] self.descends(rank, c, d);
                self.lemma_tree_passage(rank, root, c, d);
                self.lemma_sides(c, d);
                assert(after.wall_open(c, d));
                assert(after.descends(grown, c, d));
            }
        }
        assert forall|c: Coord, d1: CircleMazeCellDirection, d2: CircleMazeCellDirection|
            #[trigger] after.descends(grown, c, d1) && #[trigger] after.descends(
                grown,
                c,
                d2,
            ) implies d1 == d2 by {}
        assert forall|d: CircleMazeCellDirection| !#[trigger] after.descends(grown, root, d) by {}
    }

    /// `after` is `self` with the walls between `current` and the cells of the first
    /// `count` entries opened from both sides, and nothing else changed.
    pub open spec fn joined_to(
        &self,
        after: &CircleMaze,
        current: Coord,
        entries: Seq<(CircleMazeCellDirection, Coord)>,
        count: int,
    ) -> bool {
        &&& after.height == self.height
        &&& after.sound()
        &&& forall|c: Coord, d: CircleMazeCellDirection|
            self.in_bounds(c) && self.cell(c).has_side(d) ==> #[trigger] after.wall_open(c, d) == (
            self.wall_open(c, d) || ring_joins(current, entries, count, c, d))
    }

    /// A cell has the same sides whatever walls have been opened.
    pub proof fn lemma_same_sides(&self, after: &CircleMaze, c: Coord, d: CircleMazeCellDirection)
        requires
            self.wf(),
            after.wf(),
            after.height == self.height,
            self.in_bounds(c),
        ensures
            after.in_bounds(c),
            after.cell(c).has_side(d) == self.cell(c).has_side(d),
            self.has_neighbour(c, d) ==> self.cell(c).has_side(d),
            after.has_neighbour(c, d) == self.has_neighbour(c, d),
    {
        assert(self.cell_fits(c));
        assert(after.in_bounds(c));
        assert(after.cell_fits(c));
    }

    /// Opening the walls between a ranked cell and neighbours of it that are not
    /// ranked keeps the tree: the neighbours join it as leaves, ranked `next`.
    pub proof fn lemma_attach_many(
        &self,
        after: &CircleMaze,
        rank: Map<Coord, nat>,
        root: Coord,
        next: nat,
        current: Coord,
        entries: Seq<(CircleMazeCellDirection, Coord)>,
        count: int,
    )
        requires
            self.tree_on(rank, root),
            forall|c: Coord| #[trigger] rank.contains_key(c) ==> rank[c] < next,
            rank.contains_key(current),
            0 <= count <= entries.len(),
            forall|j: int|
                0 <= j < count ==> self.has_neighbour(current, (#[trigger] entries[j]).0)
                    && entries[j].1 == Self::neighbour_of(current, entries[j].0)
                    && !rank.contains_key(entries[j].1),
            self.joined_to(after, current, entries, count),
        ensures
            after.tree_on(ring_with_leaves(rank, entries, count, next), root),
    {
        reveal(CircleMaze::tree_on);
        let grown = ring_with_leaves(rank, entries, count, next);
        assert(self.in_bounds(current));
        assert forall|j: int| 0 <= j < count implies self.in_bounds((#[trigger] entries[j]).1)
            && Self::neighbour_of(entries[j].1, Self::opposite_of(current, entries[j].0))
            == current && self.has_neighbour(
            entries[j].1,
            Self::opposite_of(current, entries[j].0),
        ) && grown.contains_key(entries[j].1) && grown[entries[j].1] == next by {
            self.lemma_neighbour_back(current, entries[j].0);
            assert(ring_is_leaf(entries, count, entries[j].1));
        }
        assert forall|c: Coord| #[trigger] grown.contains_key(c) implies after.in_bounds(c) by {
            if !rank.contains_key(c) {
                let j = choose|j: int| 0 <= j < count && (#[trigger] entries[j]).1 == c;
            }
        }
        assert forall|c: Coord, d: CircleMazeCellDirection|
            after.in_bounds(c) && after.cell(c).has_side(d) && #[trigger] after.wall_open(
                c,
                d,
            ) implies after.has_neighbour(c, d) && grown.contains_key(c) && grown[c]
            != grown[Self::neighbour_of(c, d)] by {
            self.lemma_same_sides(after, c, d);
            if self.wall_open(c, d) {
                assert(self.passage(c, d));
                self.lemma_tree_passage(rank, root, c, d);
            } else {
                let j = choose|j: int|
                    0 <= j < count && ((c == current && d == (#[trigger] entries[j]).0) || (c
                        == entries[j].1 && d == Self::opposite_of(current, entries[j].0)));
                assert(self.in_bounds(entries[j].1));
            }
        }
        assert forall|c: Coord, d: CircleMazeCellDirection| #[trigger]
            after.descends(grown, c, d) implies (if rank.contains_key(c) {
            self.descends(rank, c, d)
        } else {
            Self::neighbour_of(c, d) == current && ring_is_leaf(entries, count, c)
        }) by {
            self.lemma_same_sides(after, c, d);
            assert(after.wall_open(c, d));
            if self.wall_open(c, d) {
                assert(self.passage(c, d));
                self.lemma_tree_passage(rank, root, c, d);
            } else {
                let j = choose|j: int|
                    0 <= j < count && ((c == current && d == (#[trigger] entries[j]).0) || (c
                        == entries[j].1 && d == Self::opposite_of(current, entries[j].0)));
                assert(self.in_bounds(entries[j].1));
            }
        }
        assert forall|c: Coord| #[trigger] grown.contains_key(c) && c != root implies after.has_parent(
            grown,
            c,
        ) by {
            if rank.contains_key(c) {
                assert(self.has_parent(rank, c));
                let d = self.parent_side(rank, c);
                self.lemma_tree_passage(rank, root, c, d);
                self.lemma_same_sides(after, c, d);
                assert(after.wall_open(c, d));
                assert(after.descends(grown, c, d));
            } else {
                let j = choose|j: int| 0 <= j < count && (#[trigger] entries[j]).1 == c;
                let d = Self::opposite_of(current, entries[j].0);
                assert(self.in_bounds(entries[j].1));
                self.lemma_same_sides(after, c, d);
                assert(ring_joins(current, entries, count, c, d));
                assert(after.wall_open(c, d));
                assert(after.descends(grown, c, d));
            }
        }
        assert forall|c: Coord, d1: CircleMazeCellDirection, d2: CircleMazeCellDirection|
            #[trigger] after.descends(grown, c, d1) && #[trigger] after.descends(
                grown,
                c,
                d2,
            ) implies d1 == d2 by {
            if !rank.contains_key(c) {
                self.lemma_same_sides(after, c, d1);
                self.lemma_same_sides(after, c, d2);
                self.lemma_neighbour_back(c, d1);
                self.lemma_neighbour_back(c, d2);
                self.lemma_neighbour_back(current, Self::opposite_of(c, d1));
                self.lemma_neighbour_back(current, Self::opposite_of(c, d2));
                if Self::opposite_of(c, d1) != Self::opposite_of(c, d2) {
                    self.lemma_back_sides_apart(c, d1, d2);
                }
            }
        }
        assert forall|d: CircleMazeCellDirection| !#[trigger] after.descends(grown, root, d) by {}
    }

    /// A cell lies on one side only of a neighbour.
    pub proof fn lemma_back_sides_apart(
        &self,
        c: Coord,
        d1: CircleMazeCellDirection,
        d2: CircleMazeCellDirection,
    )
        requires
            self.height <= usize::MAX / 16,
            self.has_neighbour(c, d1),
            self.has_neighbour(c, d2),
            Self::neighbour_of(c, d1) == Self::neighbour_of(c, d2),
        ensures
            d1 == d2,
    {
        self.lemma_neighbour_back(c, d1);
        self.lemma_neighbour_back(c, d2);
        crate::circle_maze::lemma_ring_sizes(c.y as nat);
        if d1 != d2 {
            let len = crate::circle_maze::ring_size(c.y as nat) as int;
            crate::circle_maze::lemma_ring_steps(c.x as int, len);
            if c.x + 1 < len {
                vstd::arithmetic::div_mod::lemma_small_mod((c.x + 1) as nat, len as nat);
            } else {
                vstd::arithmetic::div_mod::lemma_mod_self_0(len);
            }
            if c.x >= 1 {
                vstd::arithmetic::div_mod::lemma_mod_add_multiples_vanish(c.x - 1, len);
                vstd::arithmetic::div_mod::lemma_small_mod((c.x - 1) as nat, len as nat);
            } else {
                vstd::arithmetic::div_mod::lemma_small_mod((len - 1) as nat, len as nat);
            }
        }
    }
}

/// The cell `c` is the cell of one of the first `count` entries.
pub open spec fn ring_is_leaf(
    entries: Seq<(CircleMazeCellDirection, Coord)>,
    count: int,
    c: Coord,
) -> bool {
    exists|j: int| 0 <= j < count && (#[trigger] entries[j]).1 == c
}

/// The wall of `c` on the side `d` is one of the two walls between `current` and
/// the cell of one of the first `count` entries.
pub open spec fn ring_joins(
    current: Coord,
    entries: Seq<(CircleMazeCellDirection, Coord)>,
    count: int,
    c: Coord,
    d: CircleMazeCellDirection,
) -> bool {
    exists|j: int|
        0 <= j < count && ((c == current && d == (#[trigger] entries[j]).0) || (c == entries[j].1
            && d == CircleMaze::opposite_of(current, entries[j].0)))
}

/// The ranks after the cells of the first `count` entries have joined the tree with
/// the rank `next`.
pub open spec fn ring_with_leaves(
    rank: Map<Coord, nat>,
    entries: Seq<(CircleMazeCellDirection, Coord)>,
    count: int,
    next: nat,
) -> Map<Coord, nat> {
    Map::new(
        |c: Coord| rank.contains_key(c) || ring_is_leaf(entries, count, c),
        |c: Coord|
            if rank.contains_key(c) {
                rank[c]
            } else {
                next
            },
    )
}

} // verus!
