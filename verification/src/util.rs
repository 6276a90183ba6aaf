use crate::pair::Pair;
use vstd::prelude::*;

verus! {

/// Index of the wall that faces north (towards smaller `y`).
pub const NORTH: usize = 0;

/// Index of the wall that faces east (towards larger `x`).
pub const EAST: usize = 1;

/// Index of the wall that faces south (towards larger `y`).
pub const SOUTH: usize = 2;

/// Index of the wall that faces west (towards smaller `x`).
pub const WEST: usize = 3;

/// Which neighbours an adjacency query hands out.
#[derive(Debug, Clone, Copy, PartialEq, Eq, Structural)]
pub enum CellReachType {
    ReachableOnly,
    UnreachableOnly,
    Anything,
}

/// A cell of a grid: `x` counts within the row or ring, `y` names the row or ring.
pub type Coord = Pair<usize>;

impl CellReachType {
    /// Whether a cell whose reachability is `reachable` passes this filter.
    pub open spec fn admits(self, reachable: bool) -> bool {
        match self {
            CellReachType::ReachableOnly => reachable,
            CellReachType::UnreachableOnly => !reachable,
            CellReachType::Anything => true,
        }
    }

    /// Decides whether a cell whose reachability is `reachable` passes this filter.
    pub fn accepts(&self, reachable: bool) -> (r: bool)
        ensures
            r == self.admits(reachable),
    {
        match self {
            CellReachType::ReachableOnly => reachable,
            CellReachType::UnreachableOnly => !reachable,
            CellReachType::Anything => true,
        }
    }
}

/// The wall index that faces the other way: north and south swap, east and west swap.
pub open spec fn opposite(dir: usize) -> usize {
    if dir == NORTH {
        SOUTH
    } else if dir == EAST {
        WEST
    } else if dir == SOUTH {
        NORTH
    } else {
        EAST
    }
}

/// Computes the wall index that faces the other way.
pub fn opposite_dir(dir: usize) -> (r: usize)
    requires
        dir < 4,
    ensures
        r == opposite(dir),
        r < 4,
{
    (dir + 2) % 4
}

} // verus!
