use vstd::prelude::*;

verus! {

/// A signed integer vector with one component per axis.
#[derive(Clone, Copy, Debug, PartialEq, Eq, Structural)]
pub struct IVec3 {
    pub x: i32,
    pub y: i32,
    pub z: i32,
}

impl IVec3 {
    pub fn new(x: i32, y: i32, z: i32) -> (r: IVec3)
        ensures
            r == (IVec3 { x, y, z }),
    {
        IVec3 { x, y, z }
    }

    pub fn zero() -> (r: IVec3)
        ensures
            r == (IVec3 { x: 0, y: 0, z: 0 }),
    {
        IVec3 { x: 0, y: 0, z: 0 }
    }

    pub fn one() -> (r: IVec3)
        ensures
            r == (IVec3 { x: 1, y: 1, z: 1 }),
    {
        IVec3 { x: 1, y: 1, z: 1 }
    }
}

} // verus!
