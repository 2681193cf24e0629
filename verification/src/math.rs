//! Integer vectors of the game world.

use vstd::prelude::*;

verus! {

/// A point of the integer plane: a pixel of the canvas or a cell of the level.
#[derive(Clone, Copy, Debug, PartialEq, Eq, Structural)]
pub struct Vec2i {
    pub x: i32,
    pub y: i32,
}

impl Vec2i {
    pub fn new(x: i32, y: i32) -> (v: Vec2i)
        ensures
            v == (Vec2i { x, y }),
    {
        Vec2i { x, y }
    }

    pub fn zero() -> (v: Vec2i)
        ensures
            v == (Vec2i { x: 0, y: 0 }),
    {
        Vec2i { x: 0, y: 0 }
    }
}

} // verus!
