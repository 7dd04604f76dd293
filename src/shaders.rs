//! The kinds of celestial body that a surface coloring is chosen for.
use vstd::prelude::*;

verus! {

/// Which surface coloring a body is drawn with.
#[derive(Clone, Copy, Debug, PartialEq, Eq, Structural)]
pub enum BodyShader {
    Star,
    Rocky,
    GasGiant,
    Moon,
    Mercury,
    Venus,
    Mars,
}

} // verus!
