use vstd::prelude::*;

verus! {

/// A principal axis.
#[derive(Debug, Clone, Copy, PartialEq, Eq, Structural)]
pub enum Axis {
    X,
    Y,
    Z,
}

/// The magnitude of the value that an order key stands for, as an order key:
/// a negative value's key is `-1` minus the key of its magnitude.
pub open spec fn magnitude(key: i64) -> int {
    if key < 0 {
        -(key + 1)
    } else {
        key as int
    }
}

fn magnitude_key(key: i64) -> (r: i64)
    ensures
        r == magnitude(key),
{
    if key < 0 {
        -(key + 1)
    } else {
        key
    }
}

/// The axis to cross a vector with to get a vector perpendicular to it: the
/// axis of its component of smallest magnitude, where ties go to the later
/// axis. Crossing a nonzero vector with that axis never gives zero.
/// Components are given as order keys.
pub fn arbitrary_orthogonal(x: i64, y: i64, z: i64) -> (r: Axis)
    ensures
        ({
            let (mx, my, mz) = (magnitude(x), magnitude(y), magnitude(z));
            &&& r == Axis::X <==> (mx < my && mx < mz)
            &&& r == Axis::Y <==> (my <= mx && my < mz)
            &&& r == Axis::Z <==> (mz <= mx && mz <= my)
        }),
{
    let mx = magnitude_key(x);
    let my = magnitude_key(y);
    let mz = magnitude_key(z);
    if mx < my && mx < mz {
        Axis::X
    } else if my <= mx && my < mz {
        Axis::Y
    } else {
        Axis::Z
    }
}

/// The axis along which a box with these extents is split: the longest one,
/// where ties go to the earlier axis. Extents are given as order keys.
pub fn longest_axis(dx: i64, dy: i64, dz: i64) -> (r: Axis)
    ensures
        r == Axis::X <==> (dx >= dy && dx >= dz),
        r == Axis::Y <==> (!(dx >= dy && dx >= dz) && dy >= dx && dy >= dz),
        r == Axis::Z <==> (!(dx >= dy && dx >= dz) && !(dy >= dx && dy >= dz)),
{
    if dx >= dy && dx >= dz {
        Axis::X
    } else if dy >= dx && dy >= dz {
        Axis::Y
    } else {
        Axis::Z
    }
}

} // verus!
