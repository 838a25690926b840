use vstd::prelude::*;

verus! {

/// A two-dimensional integer vector (a grid vertex when used by the tracer).
#[derive(Clone, Copy, Debug, PartialEq, Eq, Structural)]
pub struct IVec2 {
    pub x: i32,
    pub y: i32,
}

impl IVec2 {
    pub fn new(x: i32, y: i32) -> (r: Self)
        ensures
            r.x == x,
            r.y == y,
    {
        IVec2 { x, y }
    }

    /// Creates a vector with both components set to `v`.
    pub fn splat(v: i32) -> (r: Self)
        ensures
            r.x == v,
            r.y == v,
    {
        IVec2 { x: v, y: v }
    }
}

/// A two-dimensional vector of indices.
#[derive(Clone, Copy, Debug, PartialEq, Eq, Structural)]
pub struct USizeVec2 {
    pub x: usize,
    pub y: usize,
}

impl USizeVec2 {
    pub fn new(x: usize, y: usize) -> (r: Self)
        ensures
            r.x == x,
            r.y == y,
    {
        USizeVec2 { x, y }
    }

    /// Creates a vector with both components set to `v`.
    pub fn splat(v: usize) -> (r: Self)
        ensures
            r.x == v,
            r.y == v,
    {
        USizeVec2 { x: v, y: v }
    }
}

} // verus!
