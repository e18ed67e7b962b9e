//! Topology and validation logic of a multibody mechanism model.
use vstd::prelude::*;

pub mod cli;
pub mod graph;
pub mod io;
pub mod kinematics;
pub mod model;
pub mod problem;
pub mod solve;
pub mod text;
pub mod view;

verus! {

} // verus!
