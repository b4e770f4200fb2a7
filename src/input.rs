//! Engine-side input vocabulary.

use vstd::prelude::*;

verus! {

/// A mouse button as the engine reports it; the two side buttons are named
/// by what they usually do.
#[derive(Clone, Copy, Debug, PartialEq, Eq, Structural)]
pub enum MouseButton {
    Left,
    Middle,
    Right,
    Other,
    Back,
    Forward,
}

} // verus!
