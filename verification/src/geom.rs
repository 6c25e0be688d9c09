//! Which side of a halfspace a preference lies on.

use vstd::prelude::*;

verus! {

/// The side of a constraint `c_1 a_1 + .. + c_d a_d >= c_{d+1}` that a point
/// lies on; a point on the bounding hyperplane counts as inside.
#[derive(Debug, Eq, PartialEq, Clone, Copy)]
pub enum Orientation {
    Inside,
    Outside,
}

} // verus!
