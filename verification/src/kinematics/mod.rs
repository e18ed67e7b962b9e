//! Kinematic structure of a model: the directed tree of its joints, and the
//! errors of evaluating joint kinematics.
use vstd::prelude::*;

pub mod tree;

use crate::model::bodies::BodyId;
use crate::model::joints::{JointKey, JointKind};

verus! {

/// Why the kinematics of a joint cannot be evaluated.
#[derive(Debug, PartialEq, Eq, Structural)]
pub enum KinematicsError {
    MissingBody(BodyId),
    UnsupportedJoint(JointKind),
    MissingJointCoordinates(JointKey),
    InvalidPrimaryTree,
}

} // verus!
