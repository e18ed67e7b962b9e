//! The side of a body as written in the input.
use vstd::prelude::*;

use crate::model::side::Side;

verus! {

#[derive(Debug, Clone, Copy, PartialEq, Eq, Structural)]
pub enum YamlSide {
    Left,
    Right,
    Single,
}

impl From<YamlSide> for Side {
    fn from(value: YamlSide) -> (side: Side) {
        match value {
            YamlSide::Left => Side::Left,
            YamlSide::Right => Side::Right,
            YamlSide::Single => Side::Single,
        }
    }
}

impl vstd::std_specs::convert::FromSpecImpl<YamlSide> for Side {
    open spec fn obeys_from_spec() -> bool {
        true
    }

    open spec fn from_spec(value: YamlSide) -> Side {
        match value {
            YamlSide::Left => Side::Left,
            YamlSide::Right => Side::Right,
            YamlSide::Single => Side::Single,
        }
    }
}

} // verus!
