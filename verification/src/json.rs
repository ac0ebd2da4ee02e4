//! Plain settings records mirrored by the scene file format.
//!
//! Parsing itself is the I/O layer's concern; the library holds the bare
//! record so contracts and tests can speak about it.

use vstd::prelude::*;

verus! {

/// Render resolution and sample count as the scene file states them.
#[derive(Clone, Copy, Debug, PartialEq, Eq, Structural)]
pub struct RenderSettingsJSON {
    pub image_width: u32,
    pub image_height: u32,
    pub samples: u32,
}

} // verus!
