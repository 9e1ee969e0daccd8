use vstd::prelude::*;

verus! {

/// A cell of a square board: column `x` and row `y`, both from 0.
#[derive(Debug, Clone, Copy, PartialEq, Eq, Default, Structural)]
pub struct Coords2D {
    pub x: usize,
    pub y: usize,
}

} // verus!
