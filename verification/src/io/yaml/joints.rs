//! Joint kinds and topologies as written in the input.
use vstd::prelude::*;

use crate::model::joints::{JointKind, JointTopology};

verus! {

#[derive(Debug, Clone, Copy, PartialEq, Eq, Structural)]
pub enum YamlJointKind {
    Revolute,
    Spherical,
    Universal,
    Prismatic,
    Planar,
    Inplane,
    Inline,
}

impl From<YamlJointKind> for JointKind {
    fn from(value: YamlJointKind) -> (kind: JointKind) {
        match value {
            YamlJointKind::Revolute => JointKind::Revolute,
            YamlJointKind::Spherical => JointKind::Spherical,
            YamlJointKind::Universal => JointKind::Universal,
            YamlJointKind::Prismatic => JointKind::Prismatic,
            YamlJointKind::Planar => JointKind::Planar,
            YamlJointKind::Inplane => JointKind::Inplane,
            YamlJointKind::Inline => JointKind::Inline,
        }
    }
}

impl vstd::std_specs::convert::FromSpecImpl<YamlJointKind> for JointKind {
    open spec fn obeys_from_spec() -> bool {
        true
    }

    open spec fn from_spec(value: YamlJointKind) -> JointKind {
        match value {
            YamlJointKind::Revolute => JointKind::Revolute,
            YamlJointKind::Spherical => JointKind::Spherical,
            YamlJointKind::Universal => JointKind::Universal,
            YamlJointKind::Prismatic => JointKind::Prismatic,
            YamlJointKind::Planar => JointKind::Planar,
            YamlJointKind::Inplane => JointKind::Inplane,
            YamlJointKind::Inline => JointKind::Inline,
        }
    }
}

#[derive(Debug, Clone, Copy, PartialEq, Eq, Structural)]
pub enum YamlJointTopology {
    Primary,
    Secondary,
}

impl From<YamlJointTopology> for JointTopology {
    fn from(value: YamlJointTopology) -> (topology: JointTopology) {
        match value {
            YamlJointTopology::Primary => JointTopology::Primary,
            YamlJointTopology::Secondary => JointTopology::Secondary,
        }
    }
}

impl vstd::std_specs::convert::FromSpecImpl<YamlJointTopology> for JointTopology {
    open spec fn obeys_from_spec() -> bool {
        true
    }

    open spec fn from_spec(value: YamlJointTopology) -> JointTopology {
        match value {
            YamlJointTopology::Primary => JointTopology::Primary,
            YamlJointTopology::Secondary => JointTopology::Secondary,
        }
    }
}

} // verus!
