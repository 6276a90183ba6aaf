use vstd::prelude::*;

verus! {

/// A side of a cell of a ring grid. Towards the rim a cell may have several
/// neighbours; `North` carries the number of the one that is meant.
#[derive(Debug, Clone, Copy, PartialEq, Eq, Hash, Structural)]
pub enum CircleMazeCellDirection {
    North(usize),
    East,
    South,
    West,
}

/// One cell of a ring grid. Its walls are kept in one list: first, where the cell
/// has them, the walls to the east, south and west, then the walls to the north.
/// An entry that is `true` is a wall, `false` an opening.
#[derive(Clone, Debug)]
pub struct CircleMazeCell {
    pub paths: Vec<bool>,
    pub has_default_paths: bool,  // Default paths: east + south + west.
    pub north_path_count: usize,
}

impl CircleMazeCell {
    /// Whether the cell has walls to the east, south and west.
    pub open spec fn has_defaults(&self) -> bool {
        self.has_default_paths
    }

    /// How many walls the cell has to the north.
    pub open spec fn norths(&self) -> nat {
        self.north_path_count as nat
    }

    /// The list holds one entry for each wall.
    pub open spec fn wf(&self) -> bool {
        self.paths@.len() == self.north_path_count + if self.has_default_paths {
            3int
        } else {
            0int
        }
    }

    /// Whether the cell has a wall on the side `dir`.
    pub open spec fn has_side(&self, dir: CircleMazeCellDirection) -> bool {
        match dir {
            CircleMazeCellDirection::North(n) => n < self.norths(),
            _ => self.has_defaults(),
        }
    }

    /// The place of the wall on the side `dir` in the list.
    pub open spec fn slot(&self, dir: CircleMazeCellDirection) -> int {
        match dir {
            CircleMazeCellDirection::East => 0,
            CircleMazeCellDirection::South => 1,
            CircleMazeCellDirection::West => 2,
            CircleMazeCellDirection::North(n) => n + if self.has_default_paths {
                3int
            } else {
                0int
            },
        }
    }

    /// Whether the wall on the side `dir` is open.
    pub open spec fn open_at(&self, dir: CircleMazeCellDirection) -> bool {
        !self.paths@[self.slot(dir)]
    }

    /// A cell counts as reached once one of its walls is open.
    pub open spec fn is_reachable(&self) -> bool {
        exists|i: int| 0 <= i < self.paths@.len() && !self.paths@[i]
    }

    /// A cell is reached exactly when it is open on one of its sides.
    pub proof fn lemma_reachable(&self)
        requires
            self.wf(),
        ensures
            self.is_reachable() <==> exists|dir: CircleMazeCellDirection|
                self.has_side(dir) && #[trigger] self.open_at(dir),
    {
        if self.is_reachable() {
            let i = choose|i: int| 0 <= i < self.paths@.len() && !self.paths@[i];
            let dir = if self.has_default_paths && i == 0 {
                CircleMazeCellDirection::East
            } else if self.has_default_paths && i == 1 {
                CircleMazeCellDirection::South
            } else if self.has_default_paths && i == 2 {
                CircleMazeCellDirection::West
            } else if self.has_default_paths {
                CircleMazeCellDirection::North((i - 3) as usize)
            } else {
                CircleMazeCellDirection::North(i as usize)
            };
            assert(self.slot(dir) == i);
            assert(self.has_side(dir) && self.open_at(dir));
        }
        if exists|dir: CircleMazeCellDirection| self.has_side(dir) && #[trigger] self.open_at(dir) {
            let dir = choose|dir: CircleMazeCellDirection|
                self.has_side(dir) && #[trigger] self.open_at(dir);
            assert(0 <= self.slot(dir) < self.paths@.len());
        }
    }

    /// A cell with all its walls standing: `north_path_count` walls to the north and,
    /// with `has_default_paths`, walls to the east, south and west.
    pub fn new(has_default_paths: bool, north_path_count: usize) -> (cell: CircleMazeCell)
        requires
            north_path_count + 3 <= usize::MAX,
        ensures
            cell.wf(),
            cell.has_defaults() == has_default_paths,
            cell.norths() == north_path_count,
            !cell.is_reachable(),
            forall|dir: CircleMazeCellDirection| cell.has_side(dir) ==> !#[trigger] cell.open_at(dir),
    {
        let mut path_count = north_path_count;
        if has_default_paths {
            path_count += 3;
        }
        let mut paths: Vec<bool> = Vec::new();
        while paths.len() < path_count
            invariant
                paths@.len() <= path_count,
                forall|i: int| 0 <= i < paths@.len() ==> paths@[i],
            decreases path_count - paths@.len(),
        {
            paths.push(true);
        }
        CircleMazeCell { paths, has_default_paths, north_path_count }
    }

    /// Whether the cell has walls to the east, south and west.
    pub fn default_paths(&self) -> (r: bool)
        ensures
            r == self.has_defaults(),
    {
        self.has_default_paths
    }

    /// How many walls the cell has to the north.
    pub fn north_paths(&self) -> (r: usize)
        ensures
            r == self.norths(),
    {
        self.north_path_count
    }

    /// Whether the wall on the side `dir` is open.
    pub fn is_open_at(&self, dir: CircleMazeCellDirection) -> (r: bool)
        requires
            self.wf(),
            self.has_side(dir),
        ensures
            r == self.open_at(dir),
    {
        match dir {
            CircleMazeCellDirection::East => !self.paths[0],
            CircleMazeCellDirection::South => !self.paths[1],
            CircleMazeCellDirection::West => !self.paths[2],
            CircleMazeCellDirection::North(n) => {
                let i = if self.has_default_paths {
                    3
                } else {
                    0
                };
                assert(self.paths@.len() == self.paths.len());
                !self.paths[i + n]
            },
        }
    }

    /// Takes the wall on the side `dir` down. The wall must stand.
    pub fn open(&mut self, dir: CircleMazeCellDirection)
        requires
            old(self).wf(),
            old(self).has_side(dir),
            !old(self).open_at(dir),
        ensures
            final(self).wf(),
            final(self).has_defaults() == old(self).has_defaults(),
            final(self).norths() == old(self).norths(),
            final(self).is_reachable(),
            forall|d: CircleMazeCellDirection|
                old(self).has_side(d) ==> #[trigger] final(self).open_at(d) == (d == dir
                    || old(self).open_at(d)),
    {
        assert(self.paths@.len() == self.paths.len());
        let i: usize = match dir {
            CircleMazeCellDirection::East => 0,
            CircleMazeCellDirection::South => 1,
            CircleMazeCellDirection::West => 2,
            CircleMazeCellDirection::North(n) => {
                if self.has_default_paths {
                    3 + n
                } else {
                    n
                }
            },
        };
        self.paths[i] = false;
        proof {
            assert(!self.paths@[i as int]);
            assert forall|d: CircleMazeCellDirection| old(self).has_side(d) implies #[trigger]
                self.open_at(d) == (d == dir || old(self).open_at(d)) by {
                if d != dir {
                    assert(self.slot(d) != self.slot(dir));
                }
            }
        }
    }

    /// Whether one of the walls is open.
    pub fn reachable(&self) -> (r: bool)
        ensures
            r == self.is_reachable(),
    {
        let mut i: usize = 0;
        while i < self.paths.len()
            invariant
                i <= self.paths@.len(),
                forall|k: int| 0 <= k < i ==> self.paths@[k],
            decreases self.paths@.len() - i,
        {
            if !self.paths[i] {
                return true;
            }
            i = i + 1;
        }
        false
    }
}

} // verus!
