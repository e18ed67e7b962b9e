//! Identifiers and errors of the body table built from hardpoints.
use vstd::prelude::*;

verus! {

/// Identifier of a body; 2^16 bodies are more than any mechanism needs.
#[derive(Debug, Clone, Copy, PartialEq, Eq, Structural, PartialOrd, Ord, Hash)]
pub struct BodyId(pub u16);

impl BodyId {
    /// Ground, the fixed body.
    pub fn ground() -> (id: Self)
        ensures
            id.0 == 0,
    {
        BodyId(0)
    }
}

/// Why the body table cannot be built, or a point of it not found.
#[derive(Debug, PartialEq, Eq)]
pub enum BodiesError {
    DuplicateBodyName(String),
    DuplicateBodyId(BodyId),
    MissingBodyId(BodyId),
    MissingHardpoint { id: BodyId, point_name: String },
    MissingPoint { id: BodyId, point_name: String },
}

} // verus!
