//! The order of body and joint identifiers: that of their numbers.
use std::cmp::Ordering;

use vstd::prelude::*;
use vstd::std_specs::cmp::{PartialOrdSpec, PartialOrdSpecImpl};

use crate::model::{BodyId, JointId};

verus! {

/// How two numbers compare.
pub open spec fn number_order(a: u32, b: u32) -> Option<Ordering> {
    if a < b {
        Some(Ordering::Less)
    } else if a == b {
        Some(Ordering::Equal)
    } else {
        Some(Ordering::Greater)
    }
}

fn compare_numbers(a: u32, b: u32) -> (order: Option<Ordering>)
    ensures
        order == number_order(a, b),
{
    if a < b {
        Some(Ordering::Less)
    } else if a == b {
        Some(Ordering::Equal)
    } else {
        Some(Ordering::Greater)
    }
}

impl PartialOrd for BodyId {
    fn partial_cmp(&self, other: &Self) -> (order: Option<Ordering>) {
        compare_numbers(self.0, other.0)
    }
}

impl PartialOrdSpecImpl for BodyId {
    open spec fn obeys_partial_cmp_spec() -> bool {
        true
    }

    open spec fn partial_cmp_spec(&self, other: &Self) -> Option<Ordering> {
        number_order(self.0, other.0)
    }
}

impl PartialOrd for JointId {
    fn partial_cmp(&self, other: &Self) -> (order: Option<Ordering>) {
        compare_numbers(self.0, other.0)
    }
}

impl PartialOrdSpecImpl for JointId {
    open spec fn obeys_partial_cmp_spec() -> bool {
        true
    }

    open spec fn partial_cmp_spec(&self, other: &Self) -> Option<Ordering> {
        number_order(self.0, other.0)
    }
}

/// Body identifiers compare as their numbers do: the identifier made from
/// `a` comes before that made from `b` exactly when `a < b`, and they are
/// equal exactly when `a == b`.
pub proof fn lemma_body_ids_order_by_number(a: u32, b: u32)
    ensures
        PartialOrdSpec::partial_cmp_spec(&BodyId(a), &BodyId(b)) == PartialOrdSpec::partial_cmp_spec(&a, &b),
        (BodyId(a) == BodyId(b)) == (a == b),
{
}

/// Joint identifiers compare as their numbers do.
pub proof fn lemma_joint_ids_order_by_number(a: u32, b: u32)
    ensures
        PartialOrdSpec::partial_cmp_spec(&JointId(a), &JointId(b)) == PartialOrdSpec::partial_cmp_spec(&a, &b),
        (JointId(a) == JointId(b)) == (a == b),
{
}

} // verus!
