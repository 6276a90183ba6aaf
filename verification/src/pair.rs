use std::hash::Hash;
use vstd::prelude::*;

verus! {

/// An ordered pair of values of one type; with unsigned components it names a cell of a grid.
#[derive(Debug, Clone, Copy, PartialEq, Eq, Hash, Structural)]
pub struct Pair<T> where T: Hash {
    pub x: T,
    pub y: T,
}

impl<T: Hash> Pair<T> {
    /// The pair of `x` and `y`.
    pub fn new(x: T, y: T) -> (pair: Self)
        ensures
            pair.x == x,
            pair.y == y,
    {
        Self { x, y }
    }
}

impl Pair<usize> {
    /// Position of the cell in a row-major array of rows `width` long.
    pub fn index(&self, width: usize) -> (i: usize)
        requires
            self.y * width + self.x <= usize::MAX,
        ensures
            i == self.y * width + self.x,
    {
        assert(self.y * width >= 0) by (nonlinear_arith);
        self.y * width + self.x
    }
}

impl Pair<i32> {
    /// Position of the cell in a row-major array of rows `width` long.
    pub fn index(&self, width: usize) -> (i: usize)
        requires
            self.x >= 0,
            self.y >= 0,
            self.y * width + self.x <= usize::MAX,
        ensures
            i == self.y * width + self.x,
    {
        assert(self.y * width >= 0) by (nonlinear_arith)
            requires self.y >= 0;
        self.y as usize * width + self.x as usize
    }

    /// The same pair with unsigned components.
    pub fn to_usize(&self) -> (pair: Pair<usize>)
        requires
            self.x >= 0,
            self.y >= 0,
        ensures
            pair.x == self.x,
            pair.y == self.y,
    {
        Pair::new(self.x as usize, self.y as usize)
    }
}

} // verus!
