use crate::maze::{neighbour_of, Maze};
use crate::util::{opposite, Coord, EAST, NORTH, SOUTH, WEST};
use vstd::prelude::*;

verus! {

impl Maze {
    /// The passage on the side `dir` of `c` leads to a cell of lower rank.
    pub open spec fn descends(&self, rank: Map<Coord, nat>, c: Coord, dir: usize) -> bool {
        self.passage(c, dir) && rank[neighbour_of(c, dir)] < rank[c]
    }

    /// Some passage of `c` leads to a cell of lower rank.
    pub open spec fn has_parent(&self, rank: Map<Coord, nat>, c: Coord) -> bool {
        ||| self.descends(rank, c, NORTH)
        ||| self.descends(rank, c, EAST)
        ||| self.descends(rank, c, SOUTH)
        ||| self.descends(rank, c, WEST)
    }

    /// The open walls form a tree on the cells that `rank` ranks, rooted at `root`:
    /// only ranked cells have open walls, none of them on the rim of the grid; a
    /// passage joins cells of different rank; every ranked cell but the root has
    /// exactly one passage to a cell of lower rank, and the root has none.
    #[verifier::opaque]
    pub open spec fn tree_on(&self, rank: Map<Coord, nat>, root: Coord) -> bool {
        &&& self.wf()
        &&& rank.contains_key(root)
        &&& forall|c: Coord| #[trigger] rank.contains_key(c) ==> self.in_bounds(c)
        &&& forall|c: Coord, dir: usize|
            self.in_bounds(c) && dir < 4 && #[trigger] self.wall_open(c, dir)
                ==> self.has_neighbour(c, dir) && rank.contains_key(c) && rank[c]
                != rank[neighbour_of(c, dir)]
        &&& forall|c: Coord| #[trigger] rank.contains_key(c) && c != root ==> self.has_parent(rank, c)
        &&& forall|c: Coord, d1: usize, d2: usize|
            #[trigger] self.descends(rank, c, d1) && #[trigger] self.descends(rank, c, d2) ==> d1
                == d2
        &&& forall|dir: usize| !#[trigger] self.descends(rank, root, dir)
    }

    /// Every cell of the grid is ranked.
    pub open spec fn all_ranked(&self, rank: Map<Coord, nat>) -> bool {
        forall|c: Coord| self.in_bounds(c) ==> #[trigger] rank.contains_key(c)
    }

    /// In a tree, the cell behind a passage is ranked too.
    pub proof fn lemma_tree_passage(&self, rank: Map<Coord, nat>, root: Coord, c: Coord, dir: usize)
        requires
            self.tree_on(rank, root),
            self.passage(c, dir),
        ensures
            dir < 4,
            rank.contains_key(c),
            rank.contains_key(neighbour_of(c, dir)),
            rank[c] != rank[neighbour_of(c, dir)],
            self.passage(neighbour_of(c, dir), opposite(dir)),
            neighbour_of(neighbour_of(c, dir), opposite(dir)) == c,
    {
        reveal(Maze::tree_on);
        self.lemma_neighbour_back(c, dir);
        self.lemma_wall_symmetry(c, dir);
        assert(self.wall_open(neighbour_of(c, dir), opposite(dir)));
    }

    /// In a tree no wall on the rim of the grid is open.
    pub proof fn lemma_tree_enclosed(&self, rank: Map<Coord, nat>, root: Coord)
        requires
            self.tree_on(rank, root),
        ensures
            self.wf(),
            self.enclosed(),
            self.in_bounds(root),
            rank.contains_key(root),
    {
        reveal(Maze::tree_on);
    }

    /// From every ranked cell of a tree a walk leads to the root.
    pub proof fn lemma_joined_to_root(&self, rank: Map<Coord, nat>, root: Coord, c: Coord)
        requires
            self.tree_on(rank, root),
            rank.contains_key(c),
        ensures
            self.joined(c, root),
        decreases rank[c],
    {
        reveal(Maze::tree_on);
        if c == root {
            self.lemma_walk_single(c);
        } else {
            assert(self.has_parent(rank, c));
            let dir: usize = if self.descends(rank, c, NORTH) {
                NORTH
            } else if self.descends(rank, c, EAST) {
                EAST
            } else if self.descends(rank, c, SOUTH) {
                SOUTH
            } else {
                WEST
            };
            let p = neighbour_of(c, dir);
            self.lemma_tree_passage(rank, root, c, dir);
            self.lemma_joined_to_root(rank, root, p);
            let v = choose|v: Seq<Coord>| self.walk_between(v, p, root);
            self.lemma_walk_single(c);
            assert(self.leads(c, dir, p));
            self.lemma_walk_push(seq![c], c, c, p);
            self.lemma_walk_concat(seq![c].push(p), v, c, p, root);
        }
    }

    /// A position of the walk whose cell has the highest rank.
    proof fn lemma_highest(&self, rank: Map<Coord, nat>, w: Seq<Coord>, n: int) -> (m: int)
        requires
            0 < n <= w.len(),
        ensures
            0 <= m < n,
            forall|i: int| 0 <= i < n ==> rank[#[trigger] w[i]] <= rank[w[m]],
        decreases n,
    {
        if n == 1 {
            0
        } else {
            let m = self.lemma_highest(rank, w, n - 1);
            if rank[w[n - 1]] > rank[w[m]] {
                n - 1
            } else {
                m
            }
        }
    }

    /// The side of `a` on which the linked cell `b` lies.
    pub proof fn lemma_side_of(&self, a: Coord, b: Coord) -> (dir: usize)
        requires
            self.linked(a, b),
        ensures
            self.leads(a, dir, b),
            dir < 4,
    {
        if self.leads(a, NORTH, b) {
            NORTH
        } else if self.leads(a, EAST, b) {
            EAST
        } else if self.leads(a, SOUTH, b) {
            SOUTH
        } else {
            WEST
        }
    }

    /// No cell of a tree has two passages to cells of lower rank.
    pub proof fn lemma_one_way_down(
        &self,
        rank: Map<Coord, nat>,
        root: Coord,
        c: Coord,
        d1: usize,
        d2: usize,
    )
        requires
            self.tree_on(rank, root),
            self.descends(rank, c, d1),
            self.descends(rank, c, d2),
        ensures
            d1 == d2,
    {
        reveal(Maze::tree_on);
    }

    /// The passages of a tree close no cycle.
    pub proof fn lemma_tree_acyclic(&self, rank: Map<Coord, nat>, root: Coord)
        requires
            self.tree_on(rank, root),
        ensures
            self.is_acyclic(),
    {
        self.lemma_tree_enclosed(rank, root);
        assert forall|w: Seq<Coord>| !self.is_cycle(w) by {
            if self.is_cycle(w) {
                let n = w.len() as int;
                let m = self.lemma_highest(rank, w, n);
                let top = w[m];
                let after = if m == n - 1 {
                    w[0]
                } else {
                    w[m + 1]
                };
                let before = if m == 0 {
                    w[n - 1]
                } else {
                    w[m - 1]
                };
                assert(after != before);
                assert(self.linked(top, after)) by {
                    if m < n - 1 {
                        assert(self.linked(w[m], w[m + 1]));
                    }
                }
                assert(self.linked(top, before)) by {
                    if m > 0 {
                        assert(self.linked(w[m - 1], w[m - 1 + 1]));
                        self.lemma_linked_back(w[m - 1], w[m]);
                    } else {
                        self.lemma_linked_back(w[n - 1], w[0]);
                    }
                }
                let d1 = self.lemma_side_of(top, after);
                let d2 = self.lemma_side_of(top, before);
                self.lemma_tree_passage(rank, root, top, d1);
                self.lemma_tree_passage(rank, root, top, d2);
                assert(rank[after] <= rank[top] && rank[before] <= rank[top]) by {
                    assert(rank[w[0]] <= rank[top]);
                    assert(rank[w[n - 1]] <= rank[top]);
                    if m < n - 1 {
                        assert(rank[w[m + 1]] <= rank[top]);
                    }
                    if m > 0 {
                        assert(rank[w[m - 1]] <= rank[top]);
                    }
                }
                assert(self.descends(rank, top, d1));
                assert(self.descends(rank, top, d2));
                self.lemma_one_way_down(rank, root, top, d1, d2);
                assert(false);
            }
        }
    }

    /// The side on which the passage of `c` to a cell of lower rank leaves it.
    pub open spec fn parent_side(&self, rank: Map<Coord, nat>, c: Coord) -> usize {
        if self.descends(rank, c, NORTH) {
            NORTH
        } else if self.descends(rank, c, EAST) {
            EAST
        } else if self.descends(rank, c, SOUTH) {
            SOUTH
        } else {
            WEST
        }
    }

    /// The passage of `c` to a cell of lower rank, named by its western or
    /// northern end.
    pub open spec fn parent_passage(&self, rank: Map<Coord, nat>, c: Coord) -> (Coord, usize) {
        let side = self.parent_side(rank, c);
        if side == EAST || side == SOUTH {
            (c, side)
        } else {
            (neighbour_of(c, side), opposite(side))
        }
    }

    /// In a tree that spans the grid every cell but the root owns one passage, the
    /// one that leads to a cell of lower rank, and every passage is owned by one
    /// cell. So there is one passage less than there are cells.
    pub proof fn lemma_tree_passage_count(&self, rank: Map<Coord, nat>, root: Coord)
        requires
            self.tree_on(rank, root),
            self.all_ranked(rank),
        ensures
            self.passages().finite(),
            self.passages().len() + 1 == self.width * self.height,
    {
        self.lemma_tree_enclosed(rank, root);
        self.lemma_cell_count();
        let others = self.cell_set().remove(root);
        let owned = |c: Coord| self.parent_passage(rank, c);
        assert forall|c: Coord| others.contains(c) implies self.descends(
            rank,
            c,
            self.parent_side(rank, c),
        ) && self.passages().contains(#[trigger] owned(c)) by {
            assert(rank.contains_key(c));
            assert(self.has_parent(rank, c)) by {
                reveal(Maze::tree_on);
            }
            let side = self.parent_side(rank, c);
            self.lemma_tree_passage(rank, root, c, side);
        }
        assert forall|a: Coord, b: Coord|
            others.contains(a) && others.contains(b) && #[trigger] owned(a) == #[trigger] owned(
                b,
            ) implies a == b by {
            let sa = self.parent_side(rank, a);
            let sb = self.parent_side(rank, b);
            assert(self.passages().contains(owned(a)));
            assert(self.passages().contains(owned(b)));
            self.lemma_tree_passage(rank, root, a, sa);
            self.lemma_tree_passage(rank, root, b, sb);
        }
        assert(others.map(owned) =~= self.passages()) by {
            assert forall|e: (Coord, usize)| self.passages().contains(e) implies others.map(
                owned,
            ).contains(e) by {
                let a = e.0;
                let b = neighbour_of(e.0, e.1);
                self.lemma_tree_passage(rank, root, a, e.1);
                if rank[b] < rank[a] {
                    assert(self.descends(rank, a, e.1));
                    self.lemma_one_way_down(rank, root, a, e.1, self.parent_side(rank, a));
                    assert(a != root) by {
                        reveal(Maze::tree_on);
                    }
                    assert(others.contains(a) && owned(a) == e);
                } else {
                    assert(self.descends(rank, b, opposite(e.1)));
                    self.lemma_one_way_down(
                        rank,
                        root,
                        b,
                        opposite(e.1),
                        self.parent_side(rank, b),
                    );
                    assert(b != root) by {
                        reveal(Maze::tree_on);
                    }
                    assert(self.in_bounds(b));
                    assert(others.contains(b) && owned(b) == e);
                }
            }
            assert forall|e: (Coord, usize)| others.map(owned).contains(e) implies self.passages().contains(
                e,
            ) by {
                let c = choose|c: Coord| others.contains(c) && owned(c) == e;
                assert(self.passages().contains(owned(c)));
            }
        }
        vstd::set_lib::lemma_map_size(others, self.passages(), owned);
    }

    /// A tree that ranks every cell of the grid makes the maze perfect.
    pub proof fn lemma_spanning_tree_is_perfect(&self, rank: Map<Coord, nat>, root: Coord)
        requires
            self.tree_on(rank, root),
            self.all_ranked(rank),
        ensures
            self.is_perfect(),
    {
        self.lemma_tree_passage_count(rank, root);
        self.lemma_tree_acyclic(rank, root);
        self.lemma_tree_enclosed(rank, root);
        assert forall|a: Coord, b: Coord| self.in_bounds(a) && self.in_bounds(b) implies #[trigger]
            self.joined(a, b) by {
            assert(rank.contains_key(a));
            assert(rank.contains_key(b));
            self.lemma_joined_to_root(rank, root, a);
            self.lemma_joined_to_root(rank, root, b);
            self.lemma_joined_via(a, root, b);
        }
    }

    /// A single ranked cell in a grid without open walls is a tree.
    pub proof fn lemma_tree_begins(&self, root: Coord)
        requires
            self.wf(),
            self.in_bounds(root),
            forall|c: Coord, dir: usize|
                self.in_bounds(c) && dir < 4 ==> !#[trigger] self.wall_open(c, dir),
        ensures
            self.tree_on(Map::<Coord, nat>::empty().insert(root, 0), root),
    {
        reveal(Maze::tree_on);
        let rank = Map::<Coord, nat>::empty().insert(root, 0);
        assert forall|c: Coord, d1: usize, d2: usize|
            #[trigger] self.descends(rank, c, d1) && #[trigger] self.descends(
                rank,
                c,
                d2,
            ) implies d1 == d2 by {
            assert(self.wall_open(c, d1));
        }
        assert forall|dir: usize| !#[trigger] self.descends(rank, root, dir) by {
            if self.descends(rank, root, dir) {
                assert(self.wall_open(root, dir));
            }
        }
    }

    /// `after` is `self` with the wall between `a` and its neighbour on the side `dir`
    /// opened from both sides, and nothing else changed.
    pub open spec fn opened_between(&self, after: &Maze, a: Coord, dir: usize) -> bool {
        &&& after.width == self.width
        &&& after.height == self.height
        &&& after.wf()
        &&& forall|c: Coord, d: usize|
            self.in_bounds(c) && d < 4 ==> #[trigger] after.wall_open(c, d) == (self.wall_open(c, d)
                || (c == a && d == dir) || (self.has_neighbour(a, dir) && c == neighbour_of(a, dir)
                && d == opposite(dir)))
        &&& forall|c: Coord| #[trigger]
            self.in_bounds(c) ==> after.marked_at(c) == self.marked_at(c)
    }

    /// Opening the wall between a ranked cell and a neighbour that is not ranked
    /// keeps the tree: the neighbour joins it, ranked `next`, above every other cell.
    pub proof fn lemma_attach(
        &self,
        after: &Maze,
        rank: Map<Coord, nat>,
        root: Coord,
        next: nat,
        a: Coord,
        dir: usize,
    )
        requires
            self.tree_on(rank, root),
            forall|c: Coord| #[trigger] rank.contains_key(c) ==> rank[c] < next,
            self.in_bounds(a),
            self.has_neighbour(a, dir),
            rank.contains_key(a) != rank.contains_key(neighbour_of(a, dir)),
            self.opened_between(after, a, dir),
        ensures
            rank.contains_key(a) ==> after.tree_on(rank.insert(neighbour_of(a, dir), next), root),
            !rank.contains_key(a) ==> after.tree_on(rank.insert(a, next), root),
    {
        reveal(Maze::tree_on);
        let b = neighbour_of(a, dir);
        self.lemma_neighbour_back(a, dir);
        let fresh = if rank.contains_key(a) {
            b
        } else {
            a
        };
        let old_cell = if rank.contains_key(a) {
            a
        } else {
            b
        };
        let fresh_dir = if rank.contains_key(a) {
            opposite(dir)
        } else {
            dir
        };
        let grown = rank.insert(fresh, next);
        assert(neighbour_of(fresh, fresh_dir) == old_cell);
        assert(neighbour_of(old_cell, opposite(fresh_dir)) == fresh);
        // Before, the fresh cell had no open wall, and no wall faced it.
        assert forall|d: usize| d < 4 implies !self.wall_open(fresh, d) by {}
        assert forall|c: Coord, d: usize|
            self.in_bounds(c) && d < 4 && #[trigger] after.wall_open(
                c,
                d,
            ) implies after.has_neighbour(c, d) && grown.contains_key(c) && grown[c]
            != grown[neighbour_of(c, d)] by {
            if self.wall_open(c, d) {
                self.lemma_tree_passage(rank, root, c, d);
            }
        }
        assert forall|c: Coord, d: usize| #[trigger] after.descends(grown, c, d) implies (if c
            == fresh {
            d == fresh_dir
        } else {
            self.descends(rank, c, d)
        }) by {
            assert(after.wall_open(c, d));
            if c != fresh {
                if self.wall_open(c, d) {
                    self.lemma_tree_passage(rank, root, c, d);
                }
            }
        }
        assert forall|c: Coord| #[trigger] grown.contains_key(c) && c != root implies after.has_parent(
            grown,
            c,
        ) by {
            if c == fresh {
                assert(after.wall_open(fresh, fresh_dir));
                assert(after.descends(grown, fresh, fresh_dir));
            } else {
                assert(self.has_parent(rank, c));
                let d = if self.descends(rank, c, NORTH) {
                    NORTH
                } else if self.descends(rank, c, EAST) {
                    EAST
                } else if self.descends(rank, c, SOUTH) {
                    SOUTH
                } else {
                    WEST
                };
                self.lemma_tree_passage(rank, root, c, d);
                assert(after.wall_open(c, d));
                assert(after.descends(grown, c, d));
            }
        }
        assert forall|c: Coord, d1: usize, d2: usize|
            #[trigger] after.descends(grown, c, d1) && #[trigger] after.descends(
                grown,
                c,
                d2,
            ) implies d1 == d2 by {}
        assert forall|d: usize| !#[trigger] after.descends(grown, root, d) by {}
    }

    /// `after` is `self` with the walls between `current` and the cells of the first
    /// `count` entries opened from both sides, and nothing else changed.
    pub open spec fn joined_to(
        &self,
        after: &Maze,
        current: Coord,
        entries: Seq<(usize, Coord)>,
        count: int,
    ) -> bool {
        &&& after.width == self.width
        &&& after.height == self.height
        &&& after.wf()
        &&& forall|c: Coord, d: usize|
            self.in_bounds(c) && d < 4 ==> #[trigger] after.wall_open(c, d) == (self.wall_open(c, d)
                || joins(current, entries, count, c, d))
        &&& forall|c: Coord| #[trigger]
            self.in_bounds(c) ==> after.marked_at(c) == self.marked_at(c)
    }

    /// Opening the walls between a ranked cell and neighbours of it that are not
    /// ranked keeps the tree: the neighbours join it as leaves, ranked `next`.
    pub proof fn lemma_attach_many(
        &self,
        after: &Maze,
        rank: Map<Coord, nat>,
        root: Coord,
        next: nat,
        current: Coord,
        entries: Seq<(usize, Coord)>,
        count: int,
    )
        requires
            self.tree_on(rank, root),
            forall|c: Coord| #[trigger] rank.contains_key(c) ==> rank[c] < next,
            rank.contains_key(current),
            0 <= count <= entries.len(),
            forall|j: int|
                0 <= j < count ==> (#[trigger] entries[j]).0 < 4 && self.has_neighbour(
                    current,
                    entries[j].0,
                ) && entries[j].1 == neighbour_of(current, entries[j].0) && !rank.contains_key(
                    entries[j].1,
                ),
            self.joined_to(after, current, entries, count),
        ensures
            after.tree_on(with_leaves(rank, entries, count, next), root),
    {
        reveal(Maze::tree_on);
        let grown = with_leaves(rank, entries, count, next);
        assert(self.in_bounds(current));
        assert forall|j: int| 0 <= j < count implies self.in_bounds((#[trigger] entries[j]).1)
            && neighbour_of(entries[j].1, opposite(entries[j].0)) == current && opposite(
            entries[j].0,
        ) < 4 && self.has_neighbour(entries[j].1, opposite(entries[j].0)) && grown.contains_key(
            entries[j].1,
        ) && grown[entries[j].1] == next by {
            self.lemma_neighbour_back(current, entries[j].0);
            assert(is_leaf(entries, count, entries[j].1));
        }
        assert forall|c: Coord| #[trigger] grown.contains_key(c) implies after.in_bounds(c) by {
            if !rank.contains_key(c) {
                let j = choose|j: int| 0 <= j < count && (#[trigger] entries[j]).1 == c;
            }
        }
        assert forall|c: Coord, d: usize|
            after.in_bounds(c) && d < 4 && #[trigger] after.wall_open(
                c,
                d,
            ) implies after.has_neighbour(c, d) && grown.contains_key(c) && grown[c]
            != grown[neighbour_of(c, d)] by {
            if self.wall_open(c, d) {
                self.lemma_tree_passage(rank, root, c, d);
            } else {
                let j = choose|j: int|
                    0 <= j < count && ((c == current && d == (#[trigger] entries[j]).0) || (c
                        == entries[j].1 && d == opposite(entries[j].0)));
                assert(self.in_bounds(entries[j].1));
            }
        }
        assert forall|c: Coord, d: usize| #[trigger] after.descends(grown, c, d) implies (if rank.contains_key(
            c,
        ) {
            self.descends(rank, c, d)
        } else {
            neighbour_of(c, d) == current
        }) by {
            assert(after.wall_open(c, d));
            if self.wall_open(c, d) {
                self.lemma_tree_passage(rank, root, c, d);
            } else {
                let j = choose|j: int|
                    0 <= j < count && ((c == current && d == (#[trigger] entries[j]).0) || (c
                        == entries[j].1 && d == opposite(entries[j].0)));
                assert(self.in_bounds(entries[j].1));
            }
        }
        assert forall|c: Coord| #[trigger] grown.contains_key(c) && c != root implies after.has_parent(
            grown,
            c,
        ) by {
            if rank.contains_key(c) {
                assert(self.has_parent(rank, c));
                let d = self.parent_side(rank, c);
                self.lemma_tree_passage(rank, root, c, d);
                assert(after.wall_open(c, d));
                assert(after.descends(grown, c, d));
            } else {
                let j = choose|j: int| 0 <= j < count && (#[trigger] entries[j]).1 == c;
                let d = opposite(entries[j].0);
                assert(self.in_bounds(entries[j].1));
                assert(joins(current, entries, count, c, d));
                assert(after.wall_open(c, d));
                assert(after.descends(grown, c, d));
            }
        }
        assert forall|c: Coord, d1: usize, d2: usize|
            #[trigger] after.descends(grown, c, d1) && #[trigger] after.descends(
                grown,
                c,
                d2,
            ) implies d1 == d2 by {}
        assert forall|d: usize| !#[trigger] after.descends(grown, root, d) by {}
    }
}

/// The cell `c` is the cell of one of the first `count` entries.
pub open spec fn is_leaf(entries: Seq<(usize, Coord)>, count: int, c: Coord) -> bool {
    exists|j: int| 0 <= j < count && (#[trigger] entries[j]).1 == c
}

/// The wall of `c` on the side `d` is one of the two walls between `current` and
/// the cell of one of the first `count` entries.
pub open spec fn joins(
    current: Coord,
    entries: Seq<(usize, Coord)>,
    count: int,
    c: Coord,
    d: usize,
) -> bool {
    exists|j: int|
        0 <= j < count && ((c == current && d == (#[trigger] entries[j]).0) || (c == entries[j].1
            && d == opposite(entries[j].0)))
}

/// The ranks after the cells of the first `count` entries have joined the tree with
/// the rank `next`.
pub open spec fn with_leaves(
    rank: Map<Coord, nat>,
    entries: Seq<(usize, Coord)>,
    count: int,
    next: nat,
) -> Map<Coord, nat> {
    Map::new(
        |c: Coord| rank.contains_key(c) || is_leaf(entries, count, c),
        |c: Coord|
            if rank.contains_key(c) {
                rank[c]
            } else {
                next
            },
    )
}

} // verus!
