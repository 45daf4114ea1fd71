//! Layout directions of the user interface.

use vstd::prelude::*;

verus! {

/// The direction along which a container lays out its children.
#[derive(Clone, Copy, Debug, PartialEq, Eq, Structural)]
pub enum Axis {
    /// Represents the x-axis.
    Horizontal,
    /// Represents the y-axis.
    Vertical,
}

} // verus!
