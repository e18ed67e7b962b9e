//! The side of the vehicle a body belongs to.
use vstd::prelude::*;

verus! {

/// Left and right bodies mirror each other in the XZ plane; a single body
/// sits on the centre line.
#[derive(Debug, Clone, Copy, PartialEq, Eq, Structural)]
pub enum Side {
    Left,
    Right,
    Single,
}

impl Side {
    pub fn label(&self) -> (label: &'static str)
        ensures
            label@ == match *self {
                Side::Left => "left"@,
                Side::Right => "right"@,
                Side::Single => "single"@,
            },
    {
        match self {
            Side::Left => "left",
            Side::Right => "right",
            Side::Single => "single",
        }
    }

    pub fn label_short(&self) -> (label: &'static str)
        ensures
            label@ == match *self {
                Side::Left => "l"@,
                Side::Right => "r"@,
                Side::Single => "s"@,
            },
    {
        match self {
            Side::Left => "l",
            Side::Right => "r",
            Side::Single => "s",
        }
    }
}

} // verus!
