use vstd::prelude::*;

verus! {

/// A rectangle of grid cells, bounds inclusive.
pub struct ModelRect {
    pub top: usize,
    pub bot: usize,
    pub left: usize,
    pub right: usize,
}

impl ModelRect {
    /// The single cell at column `x`, row `y`.
    pub fn point(x: usize, y: usize) -> (r: ModelRect)
        ensures
            r.top == y,
            r.bot == y,
            r.left == x,
            r.right == x,
    {
        ModelRect { top: y, bot: y, left: x, right: x }
    }
}

} // verus!
