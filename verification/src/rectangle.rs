//! Axis-aligned plane orientations.
//!
//! The rectangle primitives themselves live with the floating-point
//! renderer; the orientation tag is shared so scene descriptions can be
//! exchanged with the library's callers.

use vstd::prelude::*;

verus! {

/// Which pair of axes spans an axis-aligned rectangle.
#[derive(Clone, Copy, Debug, PartialEq, Eq, Structural)]
pub enum PlaneOrientation {
    XY,
    XZ,
    YZ,
}

} // verus!
