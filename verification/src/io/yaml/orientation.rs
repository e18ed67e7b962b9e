//! The axes of an orientation as written in the input.
use vstd::prelude::*;

use crate::model::orientation::Axis;

verus! {

#[derive(Debug, Clone, Copy, PartialEq, Eq, Structural)]
pub enum YamlAxis {
    X,
    Y,
    Z,
}

impl From<YamlAxis> for Axis {
    fn from(value: YamlAxis) -> (axis: Axis) {
        match value {
            YamlAxis::X => Axis::X,
            YamlAxis::Y => Axis::Y,
            YamlAxis::Z => Axis::Z,
        }
    }
}

impl vstd::std_specs::convert::FromSpecImpl<YamlAxis> for Axis {
    open spec fn obeys_from_spec() -> bool {
        true
    }

    open spec fn from_spec(value: YamlAxis) -> Axis {
        match value {
            YamlAxis::X => Axis::X,
            YamlAxis::Y => Axis::Y,
            YamlAxis::Z => Axis::Z,
        }
    }
}

} // verus!
