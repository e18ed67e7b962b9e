//! Errors of the closed-loop residuals and their Jacobian.
use vstd::prelude::*;

use crate::model::{BodyId, JointId};

verus! {

/// Why the closure residual rates cannot be evaluated.
#[derive(Debug, PartialEq, Eq, Structural)]
pub enum ResidualError {
    /// A body of a closure joint has no twist.
    MissingBodyTwist { joint_id: JointId, body_id: BodyId },
}

/// Why the closure Jacobian cannot be used.
#[derive(Debug, PartialEq, Eq, Structural)]
pub enum JacobianError {
    Residual(ResidualError),
    /// The Jacobian holds values that are not finite.
    NonFinite,
    /// The Jacobian has a higher rank than the selected candidate columns.
    InsufficientCandidateRank { rank: usize, selected: usize },
}

} // verus!
