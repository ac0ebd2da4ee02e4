//! Material handles.
//!
//! Shading models are floating-point collaborators around this library;
//! the tree only carries a handle to them.  The unit material is the
//! handle's neutral value, used by light-sampling helpers.

use vstd::prelude::*;

verus! {

/// A material that neither scatters nor emits; the placeholder handle
/// for helper geometry such as light samplers.
#[derive(Clone, Copy, Debug)]
pub struct UnitMaterial {}

} // verus!
