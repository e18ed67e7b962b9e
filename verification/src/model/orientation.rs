//! Axes and errors of marker orientations.
use vstd::prelude::*;

verus! {

#[derive(Clone, Copy, Debug, PartialEq, Eq, Structural)]
pub enum Axis {
    X,
    Y,
    Z,
}

/// Why an orientation cannot be built.
#[derive(Debug, PartialEq, Eq)]
pub enum BuildOrientationError {
    MissingPoint(String),
    SameAxis { first: Axis, second: Axis },
    ZeroVector(&'static str),
    ParallelVectors,
    ZeroQuaternion,
}

} // verus!
