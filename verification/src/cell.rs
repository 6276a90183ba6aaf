use vstd::prelude::*;

verus! {

/// One cell of a rectangular grid: four wall flags in the order north, east, south, west.
/// A flag that is `true` is a wall; `false` is an opening. The mark records that the
/// cell has been reached without a wall of it being open.
#[derive(Debug, Default)]
pub struct Cell {
    pub paths: [bool; 4],
    pub force_marked_reached: bool,
}

impl Cell {
    /// Whether the cell has been marked as reached without opening a wall.
    pub open spec fn marked(&self) -> bool {
        self.force_marked_reached
    }

    /// Whether the wall with index `dir` is open.
    pub open spec fn open_at(&self, dir: int) -> bool {
        !self.paths@[dir]
    }

    /// A cell counts as reached once a wall is open or it has been marked.
    pub open spec fn is_reachable(&self) -> bool {
        self.open_at(0) || self.open_at(1) || self.open_at(2) || self.open_at(3) || self.marked()
    }

    /// A cell without any wall.
    pub fn new_empty() -> (cell: Cell)
        ensures
            forall|dir: int| 0 <= dir < 4 ==> cell.open_at(dir),
            !cell.marked(),
    {
        Cell { paths: [false;4], force_marked_reached: false }
    }

    /// A cell with all four walls standing.
    pub fn new_full() -> (cell: Cell)
        ensures
            forall|dir: int| 0 <= dir < 4 ==> !cell.open_at(dir),
            !cell.marked(),
    {
        Cell { paths: [true;4], force_marked_reached: false }
    }

    /// Whether a wall is open or the cell has been marked.
    pub fn reachable(&self) -> (r: bool)
        ensures
            r == self.is_reachable(),
    {
        !self.paths[0] || !self.paths[1] || !self.paths[2] || !self.paths[3]
            || self.force_marked_reached
    }

    /// Marks the cell as reached; the walls stay as they are.
    pub fn mark_reached(&mut self)
        ensures
            final(self).marked(),
            forall|dir: int| 0 <= dir < 4 ==> final(self).open_at(dir) == old(self).open_at(dir),
    {
        self.force_marked_reached = true;
    }

    /// Reads one wall flag.
    pub fn is_open_at(&self, dir: usize) -> (r: bool)
        requires
            dir < 4,
        ensures
            r == self.open_at(dir as int),
    {
        !self.paths[dir]
    }

    /// Takes the wall with index `dir` down. The wall must stand.
    pub fn open(&mut self, dir: usize)
        requires
            dir < 4,
            !old(self).open_at(dir as int),
        ensures
            final(self).marked() == old(self).marked(),
            forall|d: int| 0 <= d < 4 ==> final(self).open_at(d) == (d == dir || old(self).open_at(d)),
    {
        self.paths[dir] = false;
    }
}

} // verus!
