//! Identifiers, kinds and errors of the joint table.
use vstd::prelude::*;

use crate::model::bodies::{BodiesError, BodyId};
use crate::model::orientation::BuildOrientationError;

verus! {

#[derive(Clone, Copy, Debug, PartialEq, Eq, Structural, PartialOrd, Ord, Hash)]
pub struct JointId(pub u16);

/// What makes a joint unique: its place in the topology and its identifier.
#[derive(Clone, Copy, Debug, PartialEq, Eq, Structural, PartialOrd, Ord)]
pub struct JointKey {
    pub topology: JointTopology,
    pub id: JointId,
}

#[derive(Clone, Copy, Debug, PartialEq, Eq, Structural)]
pub enum JointKind {
    Revolute,
    Spherical,
    Universal,
    Prismatic,
    Planar,
    Inplane,
    Inline,
}

#[derive(Clone, Copy, Debug, PartialEq, Eq, Structural, PartialOrd, Ord)]
pub enum JointTopology {
    Primary,
    Secondary,
}

/// Why the joint table cannot be built.
#[derive(Debug, PartialEq, Eq)]
pub enum BuildJointsError {
    DuplicateJointKey(JointKey),
    MissingBody(BodyId),
    InvalidBody { source: BodiesError },
    InvalidOrientation { body_id: BodyId, source: BuildOrientationError },
}

} // verus!
