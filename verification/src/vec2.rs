//! A plain two-component vector.

use vstd::prelude::*;

verus! {

/// A pair of coordinates of any one type, such as a chart point.
pub struct Vec2<T> {
    pub x: T,
    pub y: T,
}

impl<T> Vec2<T> {
    /// Packs the two components into a vector.
    pub fn new(x: T, y: T) -> (r: Self)
        ensures
            r.x == x,
            r.y == y,
    {
        Vec2 { x, y }
    }
}

} // verus!
