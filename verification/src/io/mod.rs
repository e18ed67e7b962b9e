//! Conversion of the YAML input into the model.
use vstd::prelude::*;

pub mod yaml;

verus! {

} // verus!
