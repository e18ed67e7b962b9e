//! The mechanism model: bodies, joints between them, and prescribed motions.
//!
//! Geometry (positions, orientations, marker frames) is kept by the caller;
//! the model holds what the topology and validation logic read: identifiers,
//! names, joint kinds and roles, and which body each joint marker sits on.
use vstd::prelude::*;

use crate::graph::{
    count_true, lemma_closed_holds_reached, lemma_count_true_bound, lemma_count_true_none,
    lemma_count_true_set, lemma_reaches_refl, lemma_reaches_step, reaches,
};

use crate::text::{decimal, push_decimal, push_str};

pub mod bodies;
pub mod joints;
pub mod order;
pub mod orientation;
pub mod side;

verus! {

/// Identifier of a rigid body. Body 0 is ground.
#[derive(Clone, Copy, Debug, PartialEq, Eq, Structural, Hash, Ord)]
pub struct BodyId(pub u32);

impl BodyId {
    /// Ground, the fixed body of every model.
    pub fn ground() -> (id: Self)
        ensures
            id.0 == 0,
    {
        BodyId(0)
    }

    pub fn new(value: u32) -> (id: Self)
        ensures
            id.0 == value,
    {
        BodyId(value)
    }

    /// The identifier as text: its number in decimal.
    pub fn to_string(&self) -> (text: String)
        ensures
            text@ == decimal(self.0 as nat),
    {
        crate::text::decimal_text(self.0)
    }
}

/// How an error message shows a body identifier.
pub open spec fn body_id_text(id: BodyId) -> Seq<char> {
    "BodyId("@ + decimal(id.0 as nat) + ")"@
}

/// How an error message shows a joint identifier.
pub open spec fn joint_id_text(id: JointId) -> Seq<char> {
    "JointId("@ + decimal(id.0 as nat) + ")"@
}

/// Appends how an error message shows `id`.
pub(crate) fn push_body_id(s: &mut String, id: BodyId)
    ensures
        final(s)@ == old(s)@ + body_id_text(id),
{
    push_str(s, "BodyId(");
    push_decimal(s, id.0);
    push_str(s, ")");
}

/// Appends how an error message shows `id`.
pub(crate) fn push_joint_id(s: &mut String, id: JointId)
    ensures
        final(s)@ == old(s)@ + joint_id_text(id),
{
    push_str(s, "JointId(");
    push_decimal(s, id.0);
    push_str(s, ")");
}

/// Identifier of a joint.
#[derive(Clone, Copy, Debug, PartialEq, Eq, Structural, Hash, Ord)]
pub struct JointId(pub u32);

impl JointId {
    pub fn new(value: u32) -> (id: Self)
        ensures
            id.0 == value,
    {
        JointId(value)
    }
}

#[derive(Clone, Copy, Debug, PartialEq, Eq, Structural)]
#[non_exhaustive]
pub enum JointKind {
    Spherical,
}

/// How a joint takes part in the spanning tree of the mechanism.
#[derive(Clone, Copy, Debug, PartialEq, Eq, Structural)]
pub enum JointRole {
    /// Joins the tree unless it would close a loop.
    Auto,
    /// Must join the tree.
    Primary,
    /// Always closes a loop.
    Secondary,
}

#[derive(Clone, Copy, Debug, PartialEq, Eq, Structural)]
#[non_exhaustive]
pub enum MotionKind {
    JointCoordinates,
}

/// A rigid body, by identifier and name.
pub struct Body {
    pub id: BodyId,
    pub name: String,
}

impl Body {
    pub fn new(id: BodyId, name: &str) -> (body: Self)
        ensures
            body.id == id,
            body.name@ == name@,
    {
        Body { id, name: name.to_owned() }
    }

    pub fn id(&self) -> (id: BodyId)
        ensures
            id == self.id,
    {
        self.id
    }

    pub fn name(&self) -> (name: &str)
        ensures
            name@ == self.name@,
    {
        self.name.as_str()
    }
}

/// A joint marker: the frame on one body at which a joint attaches.
pub struct Marker {
    pub name: String,
    pub body_id: BodyId,
}

impl Marker {
    pub fn new(name: &str, body_id: BodyId) -> (marker: Self)
        ensures
            marker.name@ == name@,
            marker.body_id == body_id,
    {
        Marker { name: name.to_owned(), body_id }
    }

    pub fn name(&self) -> (name: &str)
        ensures
            name@ == self.name@,
    {
        self.name.as_str()
    }

    pub fn body_id(&self) -> (id: BodyId)
        ensures
            id == self.body_id,
    {
        self.body_id
    }
}

/// A joint between the body of its I marker and the body of its J marker.
pub struct Joint {
    pub id: JointId,
    pub name: String,
    pub kind: JointKind,
    pub role: JointRole,
    pub i_marker: Marker,
    pub j_marker: Marker,
}

impl Joint {
    pub fn new(
        id: JointId,
        name: &str,
        kind: JointKind,
        role: JointRole,
        i_marker: Marker,
        j_marker: Marker,
    ) -> (joint: Self)
        ensures
            joint.id == id,
            joint.name@ == name@,
            joint.kind == kind,
            joint.role == role,
            joint.i_marker == i_marker,
            joint.j_marker == j_marker,
    {
        Joint { id, name: name.to_owned(), kind, role, i_marker, j_marker }
    }

    pub fn id(&self) -> (id: JointId)
        ensures
            id == self.id,
    {
        self.id
    }

    pub fn name(&self) -> (name: &str)
        ensures
            name@ == self.name@,
    {
        self.name.as_str()
    }

    pub fn kind(&self) -> (kind: JointKind)
        ensures
            kind == self.kind,
    {
        self.kind
    }

    pub fn role(&self) -> (role: JointRole)
        ensures
            role == self.role,
    {
        self.role
    }

    pub fn i_marker(&self) -> (marker: &Marker)
        ensures
            *marker == self.i_marker,
    {
        &self.i_marker
    }

    pub fn j_marker(&self) -> (marker: &Marker)
        ensures
            *marker == self.j_marker,
    {
        &self.j_marker
    }
}

/// A motion prescribes the coordinates of one joint.
pub struct Motion {
    pub name: String,
    pub kind: MotionKind,
    pub joint_id: JointId,
}

impl Motion {
    pub fn new(name: &str, kind: MotionKind, joint_id: JointId) -> (motion: Self)
        ensures
            motion.name@ == name@,
            motion.kind == kind,
            motion.joint_id == joint_id,
    {
        Motion { name: name.to_owned(), kind, joint_id }
    }

    pub fn name(&self) -> (name: &str)
        ensures
            name@ == self.name@,
    {
        self.name.as_str()
    }

    pub fn kind(&self) -> (kind: MotionKind)
        ensures
            kind == self.kind,
    {
        self.kind
    }

    pub fn joint_id(&self) -> (id: JointId)
        ensures
            id == self.joint_id,
    {
        self.joint_id
    }
}

// ---------------------------------------------------------------------------
// Specification helpers
// ---------------------------------------------------------------------------

/// Some body of `bodies` has identifier `id`.
pub open spec fn has_body(bodies: Seq<Body>, id: BodyId) -> bool {
    exists|k: int| 0 <= k < bodies.len() && (#[trigger] bodies[k]).id == id
}

/// Some joint of `joints` has identifier `id`.
pub open spec fn has_joint(joints: Seq<Joint>, id: JointId) -> bool {
    exists|k: int| 0 <= k < joints.len() && (#[trigger] joints[k]).id == id
}

/// No two bodies share an identifier.
pub open spec fn distinct_body_ids(bodies: Seq<Body>) -> bool {
    forall|a: int, b: int|
        0 <= a < bodies.len() && 0 <= b < bodies.len() && a != b ==> (#[trigger] bodies[a]).id
            != (#[trigger] bodies[b]).id
}

/// No two joints share an identifier.
pub open spec fn distinct_joint_ids(joints: Seq<Joint>) -> bool {
    forall|a: int, b: int|
        0 <= a < joints.len() && 0 <= b < joints.len() && a != b ==> (#[trigger] joints[a]).id
            != (#[trigger] joints[b]).id
}

/// The body of the I marker of a joint.
pub open spec fn i_body(joint: Joint) -> u32 {
    joint.i_marker.body_id.0
}

/// The body of the J marker of a joint.
pub open spec fn j_body(joint: Joint) -> u32 {
    joint.j_marker.body_id.0
}

/// `joint` connects `x` and `y`, in either direction.
pub open spec fn joint_links(joint: Joint, x: u32, y: u32) -> bool {
    (i_body(joint) == x && j_body(joint) == y) || (j_body(joint) == x && i_body(joint) == y)
}

/// The undirected graph on bodies whose edges are the joints of `joints`.
pub open spec fn joint_graph(joints: Seq<Joint>) -> spec_fn(u32, u32) -> bool {
    |x: u32, y: u32| exists|k: int| 0 <= k < joints.len() && joint_links(#[trigger] joints[k], x, y)
}

/// Body `id` is connected to ground through the joints of `joints`.
pub open spec fn connected_to_ground(joints: Seq<Joint>, id: BodyId) -> bool {
    reaches(joint_graph(joints), 0, id.0)
}

/// The first body (in order) whose identifier repeats an earlier one.
pub open spec fn first_duplicate_body(bodies: Seq<Body>) -> Option<BodyId>
    decreases bodies.len(),
{
    if bodies.len() == 0 {
        None
    } else {
        match first_duplicate_body(bodies.drop_last()) {
            Some(id) => Some(id),
            None => if has_body(bodies.drop_last(), bodies.last().id) {
                Some(bodies.last().id)
            } else {
                None
            },
        }
    }
}

/// The first joint (in order) whose identifier repeats an earlier one.
pub open spec fn first_duplicate_joint(joints: Seq<Joint>) -> Option<JointId>
    decreases joints.len(),
{
    if joints.len() == 0 {
        None
    } else {
        match first_duplicate_joint(joints.drop_last()) {
            Some(id) => Some(id),
            None => if has_joint(joints.drop_last(), joints.last().id) {
                Some(joints.last().id)
            } else {
                None
            },
        }
    }
}

/// What is wrong with the markers of one joint, if anything: checked are the
/// I body, then the J body, then that the two differ.
pub open spec fn joint_reference_error(bodies: Seq<Body>, joint: Joint) -> Option<ModelBuildError> {
    if !has_body(bodies, joint.i_marker.body_id) {
        Some(
            ModelBuildError::InvalidJointReference {
                joint_id: joint.id,
                body_id: joint.i_marker.body_id,
            },
        )
    } else if !has_body(bodies, joint.j_marker.body_id) {
        Some(
            ModelBuildError::InvalidJointReference {
                joint_id: joint.id,
                body_id: joint.j_marker.body_id,
            },
        )
    } else if joint.i_marker.body_id == joint.j_marker.body_id {
        Some(
            ModelBuildError::SelfConnectingJoint {
                joint_id: joint.id,
                body_id: joint.i_marker.body_id,
            },
        )
    } else {
        None
    }
}

/// The reference error of the first joint (in order) that has one.
pub open spec fn first_joint_error(bodies: Seq<Body>, joints: Seq<Joint>) -> Option<ModelBuildError>
    decreases joints.len(),
{
    if joints.len() == 0 {
        None
    } else {
        match first_joint_error(bodies, joints.drop_last()) {
            Some(e) => Some(e),
            None => joint_reference_error(bodies, joints.last()),
        }
    }
}

/// The first body (in order) that the joints do not connect to ground.
pub open spec fn first_free_body(bodies: Seq<Body>, joints: Seq<Joint>) -> Option<BodyId>
    decreases bodies.len(),
{
    if bodies.len() == 0 {
        None
    } else {
        match first_free_body(bodies.drop_last(), joints) {
            Some(id) => Some(id),
            None => if connected_to_ground(joints, bodies.last().id) {
                None
            } else {
                Some(bodies.last().id)
            },
        }
    }
}

/// The error that building a model of `bodies` and `joints` reports: joint
/// references first, then a missing ground, then the first free body.
pub open spec fn model_error(bodies: Seq<Body>, joints: Seq<Joint>) -> Option<ModelBuildError> {
    match first_joint_error(bodies, joints) {
        Some(e) => Some(e),
        None => if !has_body(bodies, BodyId(0)) {
            Some(ModelBuildError::MissingGround)
        } else {
            match first_free_body(bodies, joints) {
                Some(id) => Some(ModelBuildError::FreeBody(id)),
                None => None,
            }
        },
    }
}

/// The bodies of `a` and `b` have the same identifiers, in the same order.
pub open spec fn same_body_ids(a: Seq<Body>, b: Seq<Body>) -> bool {
    &&& a.len() == b.len()
    &&& forall|k: int| 0 <= k < a.len() ==> (#[trigger] a[k]).id == b[k].id
}

/// The joints of `a` and `b` have the same identifiers and join the same
/// bodies, in the same order.
pub open spec fn same_joint_links(a: Seq<Joint>, b: Seq<Joint>) -> bool {
    &&& a.len() == b.len()
    &&& forall|k: int|
        0 <= k < a.len() ==> (#[trigger] a[k]).id == b[k].id && a[k].i_marker.body_id == b[k].i_marker.body_id
            && a[k].j_marker.body_id == b[k].j_marker.body_id
}

proof fn lemma_same_body_ids_prefix(a: Seq<Body>, b: Seq<Body>)
    requires
        same_body_ids(a, b),
        a.len() > 0,
    ensures
        same_body_ids(a.drop_last(), b.drop_last()),
        forall|id: BodyId| has_body(a.drop_last(), id) == has_body(b.drop_last(), id),
{
    assert forall|k: int| 0 <= k < a.drop_last().len() implies (#[trigger] a.drop_last()[k]).id == b.drop_last()[k].id by {
        assert(a.drop_last()[k] == a[k] && b.drop_last()[k] == b[k]);
    }
    assert forall|id: BodyId| has_body(a.drop_last(), id) == has_body(b.drop_last(), id) by {
        if has_body(a.drop_last(), id) {
            let k = choose|k: int| 0 <= k < a.drop_last().len() && (#[trigger] a.drop_last()[k]).id == id;
            assert(b.drop_last()[k].id == id);
        }
        if has_body(b.drop_last(), id) {
            let k = choose|k: int| 0 <= k < b.drop_last().len() && (#[trigger] b.drop_last()[k]).id == id;
            assert(a.drop_last()[k].id == id);
        }
    }
}

proof fn lemma_same_joint_links_prefix(a: Seq<Joint>, b: Seq<Joint>)
    requires
        same_joint_links(a, b),
        a.len() > 0,
    ensures
        same_joint_links(a.drop_last(), b.drop_last()),
        forall|id: JointId| has_joint(a.drop_last(), id) == has_joint(b.drop_last(), id),
{
    assert forall|k: int| 0 <= k < a.drop_last().len() implies (#[trigger] a.drop_last()[k]).id == b.drop_last()[k].id
        && a.drop_last()[k].i_marker.body_id == b.drop_last()[k].i_marker.body_id && a.drop_last()[k].j_marker.body_id
        == b.drop_last()[k].j_marker.body_id by {
        assert(a.drop_last()[k] == a[k] && b.drop_last()[k] == b[k]);
    }
    assert forall|id: JointId| has_joint(a.drop_last(), id) == has_joint(b.drop_last(), id) by {
        if has_joint(a.drop_last(), id) {
            let k = choose|k: int| 0 <= k < a.drop_last().len() && (#[trigger] a.drop_last()[k]).id == id;
            assert(b.drop_last()[k].id == id);
        }
        if has_joint(b.drop_last(), id) {
            let k = choose|k: int| 0 <= k < b.drop_last().len() && (#[trigger] b.drop_last()[k]).id == id;
            assert(a.drop_last()[k].id == id);
        }
    }
}

/// The duplicate check of bodies reads their identifiers only.
pub proof fn lemma_first_duplicate_body_congruent(a: Seq<Body>, b: Seq<Body>)
    requires
        same_body_ids(a, b),
    ensures
        first_duplicate_body(a) == first_duplicate_body(b),
    decreases a.len(),
{
    if a.len() > 0 {
        lemma_same_body_ids_prefix(a, b);
        lemma_first_duplicate_body_congruent(a.drop_last(), b.drop_last());
        assert(a.last().id == b.last().id);
    }
}

proof fn lemma_first_duplicate_joint_congruent(a: Seq<Joint>, b: Seq<Joint>)
    requires
        same_joint_links(a, b),
    ensures
        first_duplicate_joint(a) == first_duplicate_joint(b),
    decreases a.len(),
{
    if a.len() > 0 {
        lemma_same_joint_links_prefix(a, b);
        lemma_first_duplicate_joint_congruent(a.drop_last(), b.drop_last());
        assert(a.last().id == b.last().id);
    }
}

proof fn lemma_first_joint_error_congruent(b1: Seq<Body>, j1: Seq<Joint>, b2: Seq<Body>, j2: Seq<Joint>)
    requires
        forall|id: BodyId| has_body(b1, id) == has_body(b2, id),
        same_joint_links(j1, j2),
    ensures
        first_joint_error(b1, j1) == first_joint_error(b2, j2),
    decreases j1.len(),
{
    if j1.len() > 0 {
        lemma_same_joint_links_prefix(j1, j2);
        lemma_first_joint_error_congruent(b1, j1.drop_last(), b2, j2.drop_last());
        assert(j1.last().id == j2.last().id);
        assert(j1.last().i_marker.body_id == j2.last().i_marker.body_id);
        assert(j1.last().j_marker.body_id == j2.last().j_marker.body_id);
    }
}

proof fn lemma_joint_graph_congruent(a: Seq<Joint>, b: Seq<Joint>)
    requires
        same_joint_links(a, b),
    ensures
        joint_graph(a) == joint_graph(b),
{
    assert forall|x: u32, y: u32| #[trigger] joint_graph(a)(x, y) == joint_graph(b)(x, y) by {
        if joint_graph(a)(x, y) {
            let k = choose|k: int| 0 <= k < a.len() && joint_links(#[trigger] a[k], x, y);
            assert(joint_links(b[k], x, y));
        }
        if joint_graph(b)(x, y) {
            let k = choose|k: int| 0 <= k < b.len() && joint_links(#[trigger] b[k], x, y);
            assert(a[k].id == b[k].id);
            assert(joint_links(a[k], x, y));
        }
    }
    assert(joint_graph(a) =~= joint_graph(b));
}

proof fn lemma_first_free_body_congruent(b1: Seq<Body>, j1: Seq<Joint>, b2: Seq<Body>, j2: Seq<Joint>)
    requires
        same_body_ids(b1, b2),
        same_joint_links(j1, j2),
    ensures
        first_free_body(b1, j1) == first_free_body(b2, j2),
    decreases b1.len(),
{
    lemma_joint_graph_congruent(j1, j2);
    if b1.len() > 0 {
        lemma_same_body_ids_prefix(b1, b2);
        lemma_first_free_body_congruent(b1.drop_last(), j1, b2.drop_last(), j2);
        assert(b1.last().id == b2.last().id);
    }
}

/// Validation does not look at names: bodies and joints with the same
/// identifiers, joining the same bodies in the same order, meet the same
/// duplicate checks and the same model errors.
pub proof fn lemma_validation_ignores_names(b1: Seq<Body>, j1: Seq<Joint>, b2: Seq<Body>, j2: Seq<Joint>)
    requires
        same_body_ids(b1, b2),
        same_joint_links(j1, j2),
    ensures
        first_duplicate_body(b1) == first_duplicate_body(b2),
        first_duplicate_joint(j1) == first_duplicate_joint(j2),
        model_error(b1, j1) == model_error(b2, j2),
{
    lemma_first_duplicate_body_congruent(b1, b2);
    lemma_first_duplicate_joint_congruent(j1, j2);
    assert forall|id: BodyId| has_body(b1, id) == has_body(b2, id) by {
        if has_body(b1, id) {
            let k = choose|k: int| 0 <= k < b1.len() && (#[trigger] b1[k]).id == id;
            assert(b2[k].id == id);
        }
        if has_body(b2, id) {
            let k = choose|k: int| 0 <= k < b2.len() && (#[trigger] b2[k]).id == id;
            assert(b1[k].id == id);
        }
    }
    lemma_first_joint_error_congruent(b1, j1, b2, j2);
    lemma_first_free_body_congruent(b1, j1, b2, j2);
}

/// A valid model: distinct identifiers, joints that join two different
/// existing bodies, a ground body, and every body connected to ground.
pub open spec fn valid_model(bodies: Seq<Body>, joints: Seq<Joint>) -> bool {
    &&& distinct_body_ids(bodies)
    &&& distinct_joint_ids(joints)
    &&& model_error(bodies, joints).is_none()
}

} // verus!

verus! {

/// The bodies of a model, without repeated identifiers.
pub struct Bodies {
    bodies: Vec<Body>,
}

impl View for Bodies {
    type V = Seq<Body>;

    closed spec fn view(&self) -> Seq<Body> {
        self.bodies@
    }
}

impl Bodies {
    #[verifier::type_invariant]
    pub open spec fn inv(&self) -> bool {
        distinct_body_ids(self@)
    }

    /// Accepts the bodies unless two share an identifier; the error names the
    /// first body whose identifier repeats an earlier one.
    pub fn new(bodies: Vec<Body>) -> (result: Result<Self, ModelBuildError>)
        ensures
            match result {
                Ok(b) => b@ == bodies@ && first_duplicate_body(bodies@).is_none(),
                Err(e) => first_duplicate_body(bodies@) matches Some(id) && e
                    == ModelBuildError::DuplicateBodyId(id),
            },
    {
        let n = bodies.len();
        let mut k: usize = 0;
        while k < n
            invariant
                k <= n,
                n == bodies@.len(),
                first_duplicate_body(bodies@.take(k as int)).is_none(),
            decreases n - k,
        {
            let id = bodies[k].id;
            let seen = contains_body_id(&bodies, k, id);
            assert(bodies@.take(k + 1).drop_last() =~= bodies@.take(k as int));
            if seen {
                proof {
                    lemma_first_duplicate_body_prefix(bodies@, (k + 1) as int);
                }
                return Err(ModelBuildError::DuplicateBodyId(id));
            }
            k = k + 1;
        }
        assert(bodies@.take(n as int) =~= bodies@);
        proof {
            lemma_first_duplicate_body_none(bodies@);
        }
        Ok(Bodies { bodies })
    }

    pub fn len(&self) -> (n: usize)
        ensures
            n == self@.len(),
    {
        self.bodies.len()
    }

    /// The body at position `index`.
    pub fn at(&self, index: usize) -> (body: &Body)
        requires
            index < self@.len(),
        ensures
            *body == self@[index as int],
    {
        &self.bodies[index]
    }

    /// An iterator over the bodies, in listing order.
    pub fn iter(&self) -> (it: std::slice::Iter<'_, Body>)
        ensures
            vstd::std_specs::slice::into_iter_elts(it) == self@,
    {
        self.bodies.iter()
    }

    /// The position of the body with identifier `id`.
    pub fn index_of(&self, id: BodyId) -> (index: Option<usize>)
        ensures
            match index {
                Some(k) => k < self@.len() && self@[k as int].id == id,
                None => !has_body(self@, id),
            },
    {
        let n = self.bodies.len();
        let mut k: usize = 0;
        while k < n
            invariant
                k <= n,
                n == self@.len(),
                self@ == self.bodies@,
                forall|m: int| 0 <= m < k ==> (#[trigger] self@[m]).id != id,
            decreases n - k,
        {
            if self.bodies[k].id == id {
                return Some(k);
            }
            k = k + 1;
        }
        None
    }

    /// The body with identifier `id`.
    pub fn get(&self, id: BodyId) -> (body: Option<&Body>)
        ensures
            match body {
                Some(b) => b.id == id && self@.contains(*b),
                None => !has_body(self@, id),
            },
    {
        match self.index_of(id) {
            Some(k) => Some(&self.bodies[k]),
            None => None,
        }
    }

    pub fn contains(&self, id: BodyId) -> (found: bool)
        ensures
            found == has_body(self@, id),
    {
        self.index_of(id).is_some()
    }
}

/// Whether one of the first `end` bodies has identifier `id`.
fn contains_body_id(bodies: &Vec<Body>, end: usize, id: BodyId) -> (found: bool)
    requires
        end <= bodies@.len(),
    ensures
        found == has_body(bodies@.take(end as int), id),
{
    let mut k: usize = 0;
    while k < end
        invariant
            k <= end,
            end <= bodies@.len(),
            forall|m: int| 0 <= m < k ==> (#[trigger] bodies@[m]).id != id,
        decreases end - k,
    {
        if bodies[k].id == id {
            assert(bodies@.take(end as int)[k as int] == bodies@[k as int]);
            return true;
        }
        k = k + 1;
    }
    proof {
        if has_body(bodies@.take(end as int), id) {
            let m = choose|m: int| 0 <= m < end && (#[trigger] bodies@.take(end as int)[m]).id == id;
            assert(bodies@[m].id == id);
        }
    }
    false
}

proof fn lemma_first_duplicate_body_prefix(bodies: Seq<Body>, k: int)
    requires
        0 < k <= bodies.len(),
        first_duplicate_body(bodies.take(k - 1)).is_none(),
        has_body(bodies.take(k - 1), bodies[k - 1].id),
    ensures
        first_duplicate_body(bodies) == Some(bodies[k - 1].id),
    decreases bodies.len(),
{
    if k < bodies.len() {
        assert(bodies.drop_last().take(k - 1) =~= bodies.take(k - 1));
        lemma_first_duplicate_body_prefix(bodies.drop_last(), k);
    } else {
        assert(bodies.take(k - 1) =~= bodies.drop_last());
    }
}

/// Without a first repeated identifier, all identifiers are distinct.
pub proof fn lemma_first_duplicate_body_none(bodies: Seq<Body>)
    ensures
        first_duplicate_body(bodies).is_none() <==> distinct_body_ids(bodies),
    decreases bodies.len(),
{
    if bodies.len() > 0 {
        let init = bodies.drop_last();
        lemma_first_duplicate_body_none(init);
        if first_duplicate_body(bodies).is_none() {
            assert forall|a: int, b: int|
                0 <= a < bodies.len() && 0 <= b < bodies.len() && a != b implies (
            #[trigger] bodies[a]).id != (#[trigger] bodies[b]).id by {
                if a == bodies.len() - 1 {
                    assert(init[b] == bodies[b]);
                } else if b == bodies.len() - 1 {
                    assert(init[a] == bodies[a]);
                } else {
                    assert(init[a] == bodies[a] && init[b] == bodies[b]);
                }
            }
        }
        if distinct_body_ids(bodies) {
            assert forall|a: int, b: int|
                0 <= a < init.len() && 0 <= b < init.len() && a != b implies (#[trigger] init[a]).id
                != (#[trigger] init[b]).id by {
                assert(init[a] == bodies[a] && init[b] == bodies[b]);
            }
            if has_body(init, bodies.last().id) {
                let m = choose|m: int| 0 <= m < init.len() && (#[trigger] init[m]).id == bodies.last().id;
                assert(bodies[m] == init[m]);
                assert(bodies[m].id != bodies[bodies.len() - 1].id);
            }
        }
    }
}

} // verus!

verus! {

/// The joints of a model, without repeated identifiers.
pub struct Joints {
    joints: Vec<Joint>,
}

impl View for Joints {
    type V = Seq<Joint>;

    closed spec fn view(&self) -> Seq<Joint> {
        self.joints@
    }
}

impl Joints {
    #[verifier::type_invariant]
    pub open spec fn inv(&self) -> bool {
        distinct_joint_ids(self@)
    }

    /// Accepts the joints unless two share an identifier; the error names the
    /// first joint whose identifier repeats an earlier one.
    pub fn new(joints: Vec<Joint>) -> (result: Result<Self, ModelBuildError>)
        ensures
            match result {
                Ok(b) => b@ == joints@ && first_duplicate_joint(joints@).is_none(),
                Err(e) => first_duplicate_joint(joints@) matches Some(id) && e
                    == ModelBuildError::DuplicateJointId(id),
            },
    {
        let n = joints.len();
        let mut k: usize = 0;
        while k < n
            invariant
                k <= n,
                n == joints@.len(),
                first_duplicate_joint(joints@.take(k as int)).is_none(),
            decreases n - k,
        {
            let id = joints[k].id;
            let seen = contains_joint_id(&joints, k, id);
            assert(joints@.take(k + 1).drop_last() =~= joints@.take(k as int));
            if seen {
                proof {
                    lemma_first_duplicate_joint_prefix(joints@, (k + 1) as int);
                }
                return Err(ModelBuildError::DuplicateJointId(id));
            }
            k = k + 1;
        }
        assert(joints@.take(n as int) =~= joints@);
        proof {
            lemma_first_duplicate_joint_none(joints@);
        }
        Ok(Joints { joints })
    }

    pub fn len(&self) -> (n: usize)
        ensures
            n == self@.len(),
    {
        self.joints.len()
    }

    /// The joint at position `index`.
    pub fn at(&self, index: usize) -> (joint: &Joint)
        requires
            index < self@.len(),
        ensures
            *joint == self@[index as int],
    {
        &self.joints[index]
    }

    /// An iterator over the joints, in listing order.
    pub fn iter(&self) -> (it: std::slice::Iter<'_, Joint>)
        ensures
            vstd::std_specs::slice::into_iter_elts(it) == self@,
    {
        self.joints.iter()
    }

    /// The position of the joint with identifier `id`.
    pub fn index_of(&self, id: JointId) -> (index: Option<usize>)
        ensures
            match index {
                Some(k) => k < self@.len() && self@[k as int].id == id,
                None => !has_joint(self@, id),
            },
    {
        let n = self.joints.len();
        let mut k: usize = 0;
        while k < n
            invariant
                k <= n,
                n == self@.len(),
                self@ == self.joints@,
                forall|m: int| 0 <= m < k ==> (#[trigger] self@[m]).id != id,
            decreases n - k,
        {
            if self.joints[k].id == id {
                return Some(k);
            }
            k = k + 1;
        }
        None
    }

    /// The joint with identifier `id`.
    pub fn get(&self, id: JointId) -> (joint: Option<&Joint>)
        ensures
            match joint {
                Some(b) => b.id == id && self@.contains(*b),
                None => !has_joint(self@, id),
            },
    {
        match self.index_of(id) {
            Some(k) => Some(&self.joints[k]),
            None => None,
        }
    }

    pub fn contains(&self, id: JointId) -> (found: bool)
        ensures
            found == has_joint(self@, id),
    {
        self.index_of(id).is_some()
    }
}

/// Whether one of the first `end` joints has identifier `id`.
fn contains_joint_id(joints: &Vec<Joint>, end: usize, id: JointId) -> (found: bool)
    requires
        end <= joints@.len(),
    ensures
        found == has_joint(joints@.take(end as int), id),
{
    let mut k: usize = 0;
    while k < end
        invariant
            k <= end,
            end <= joints@.len(),
            forall|m: int| 0 <= m < k ==> (#[trigger] joints@[m]).id != id,
        decreases end - k,
    {
        if joints[k].id == id {
            assert(joints@.take(end as int)[k as int] == joints@[k as int]);
            return true;
        }
        k = k + 1;
    }
    proof {
        if has_joint(joints@.take(end as int), id) {
            let m = choose|m: int| 0 <= m < end && (#[trigger] joints@.take(end as int)[m]).id == id;
            assert(joints@[m].id == id);
        }
    }
    false
}

proof fn lemma_first_duplicate_joint_prefix(joints: Seq<Joint>, k: int)
    requires
        0 < k <= joints.len(),
        first_duplicate_joint(joints.take(k - 1)).is_none(),
        has_joint(joints.take(k - 1), joints[k - 1].id),
    ensures
        first_duplicate_joint(joints) == Some(joints[k - 1].id),
    decreases joints.len(),
{
    if k < joints.len() {
        assert(joints.drop_last().take(k - 1) =~= joints.take(k - 1));
        lemma_first_duplicate_joint_prefix(joints.drop_last(), k);
    } else {
        assert(joints.take(k - 1) =~= joints.drop_last());
    }
}

/// Without a first repeated identifier, all identifiers are distinct.
pub proof fn lemma_first_duplicate_joint_none(joints: Seq<Joint>)
    ensures
        first_duplicate_joint(joints).is_none() <==> distinct_joint_ids(joints),
    decreases joints.len(),
{
    if joints.len() > 0 {
        let init = joints.drop_last();
        lemma_first_duplicate_joint_none(init);
        if first_duplicate_joint(joints).is_none() {
            assert forall|a: int, b: int|
                0 <= a < joints.len() && 0 <= b < joints.len() && a != b implies (
            #[trigger] joints[a]).id != (#[trigger] joints[b]).id by {
                if a == joints.len() - 1 {
                    assert(init[b] == joints[b]);
                } else if b == joints.len() - 1 {
                    assert(init[a] == joints[a]);
                } else {
                    assert(init[a] == joints[a] && init[b] == joints[b]);
                }
            }
        }
        if distinct_joint_ids(joints) {
            assert forall|a: int, b: int|
                0 <= a < init.len() && 0 <= b < init.len() && a != b implies (#[trigger] init[a]).id
                != (#[trigger] init[b]).id by {
                assert(init[a] == joints[a] && init[b] == joints[b]);
            }
            if has_joint(init, joints.last().id) {
                let m = choose|m: int| 0 <= m < init.len() && (#[trigger] init[m]).id == joints.last().id;
                assert(joints[m] == init[m]);
                assert(joints[m].id != joints[joints.len() - 1].id);
            }
        }
    }
}

} // verus!

verus! {

/// A validated mechanism model.
pub struct Model {
    bodies: Bodies,
    joints: Joints,
}

impl Model {
    /// The bodies of the model.
    pub closed spec fn body_seq(&self) -> Seq<Body> {
        self.bodies@
    }

    /// The joints of the model.
    pub closed spec fn joint_seq(&self) -> Seq<Joint> {
        self.joints@
    }

    #[verifier::type_invariant]
    pub open spec fn inv(&self) -> bool {
        valid_model(self.body_seq(), self.joint_seq())
    }

    /// Validates the joint references, the ground body and the connection of
    /// every body to ground, and reports the first problem found.
    pub fn new(bodies: Bodies, joints: Joints) -> (result: Result<Self, ModelBuildError>)
        ensures
            result.is_ok() == model_error(bodies@, joints@).is_none(),
            match result {
                Ok(model) => model.body_seq() == bodies@ && model.joint_seq() == joints@,
                Err(e) => model_error(bodies@, joints@) == Some(e),
            },
    {
        proof {
            use_type_invariant(&bodies);
            use_type_invariant(&joints);
        }
        let joint_count = joints.len();
        let mut k: usize = 0;
        while k < joint_count
            invariant
                k <= joint_count,
                joint_count == joints@.len(),
                first_joint_error(bodies@, joints@.take(k as int)).is_none(),
            decreases joint_count - k,
        {
            let joint = joints.at(k);
            let joint_id = joint.id;
            let i_body_id = joint.i_marker.body_id;
            let j_body_id = joint.j_marker.body_id;
            assert(joints@.take(k + 1).drop_last() =~= joints@.take(k as int));
            assert(joints@.take(k + 1).last() == joints@[k as int]);
            if !bodies.contains(i_body_id) {
                proof {
                    lemma_first_joint_error_prefix(bodies@, joints@, (k + 1) as int);
                }
                return Err(ModelBuildError::InvalidJointReference { joint_id, body_id: i_body_id });
            }
            if !bodies.contains(j_body_id) {
                proof {
                    lemma_first_joint_error_prefix(bodies@, joints@, (k + 1) as int);
                }
                return Err(ModelBuildError::InvalidJointReference { joint_id, body_id: j_body_id });
            }
            if i_body_id == j_body_id {
                proof {
                    lemma_first_joint_error_prefix(bodies@, joints@, (k + 1) as int);
                }
                return Err(ModelBuildError::SelfConnectingJoint { joint_id, body_id: i_body_id });
            }
            k = k + 1;
        }
        assert(joints@.take(joint_count as int) =~= joints@);
        proof {
            lemma_first_joint_error_none(bodies@, joints@);
        }
        let ground_index = match bodies.index_of(BodyId(0)) {
            Some(index) => index,
            None => {
                return Err(ModelBuildError::MissingGround);
            },
        };
        assert(has_body(bodies@, BodyId(0)));
        let marks = connected_marks(&bodies, &joints, ground_index);
        let body_count = bodies.len();
        let mut b: usize = 0;
        while b < body_count
            invariant
                b <= body_count,
                body_count == bodies@.len(),
                marks@.len() == body_count,
                forall|a: int|
                    0 <= a < body_count ==> (marks@[a] <==> connected_to_ground(
                        joints@,
                        #[trigger] bodies@[a].id,
                    )),
                first_free_body(bodies@.take(b as int), joints@).is_none(),
                first_joint_error(bodies@, joints@).is_none(),
                has_body(bodies@, BodyId(0)),
            decreases body_count - b,
        {
            assert(bodies@.take(b + 1).drop_last() =~= bodies@.take(b as int));
            assert(bodies@.take(b + 1).last() == bodies@[b as int]);
            if !marks[b] {
                let id = bodies.at(b).id;
                proof {
                    lemma_first_free_body_prefix(bodies@, joints@, (b + 1) as int);
                }
                return Err(ModelBuildError::FreeBody(id));
            }
            b = b + 1;
        }
        assert(bodies@.take(body_count as int) =~= bodies@);
        proof {
            lemma_first_duplicate_body_none(bodies@);
            lemma_first_duplicate_joint_none(joints@);
        }
        Ok(Model { bodies, joints })
    }

    pub fn bodies(&self) -> (bodies: &Bodies)
        ensures
            bodies@ == self.body_seq(),
    {
        &self.bodies
    }

    pub fn joints(&self) -> (joints: &Joints)
        ensures
            joints@ == self.joint_seq(),
    {
        &self.joints
    }
}

/// A model together with the motions prescribed on its joints.
pub struct Input {
    model: Model,
    motions: Vec<Motion>,
}

impl Input {
    /// The model of the input.
    pub closed spec fn spec_model(&self) -> Model {
        self.model
    }

    /// The motions of the input, in the order given.
    pub closed spec fn motion_seq(&self) -> Seq<Motion> {
        self.motions@
    }

    pub fn new(model: Model, motions: Vec<Motion>) -> (input: Self)
        ensures
            input.spec_model() == model,
            input.motion_seq() == motions@,
    {
        Input { model, motions }
    }

    pub fn model(&self) -> (model: &Model)
        ensures
            *model == self.spec_model(),
    {
        &self.model
    }

    pub fn motions(&self) -> (motions: &[Motion])
        ensures
            motions@ == self.motion_seq(),
    {
        self.motions.as_slice()
    }
}

/// The bodies of `bodies` and `joints` agree on the marks of the two bodies
/// that joint `q` connects.
pub open spec fn joint_marks_agree(bodies: Seq<Body>, joints: Seq<Joint>, marks: Seq<bool>, q: int) -> bool {
    forall|a: int, b: int|
        0 <= a < bodies.len() && 0 <= b < bodies.len() && (#[trigger] bodies[a]).id.0 == i_body(
            joints[q],
        ) && (#[trigger] bodies[b]).id.0 == j_body(joints[q]) ==> marks[a] == marks[b]
}

/// Marks, for each body, whether the joints connect it to ground.
fn connected_marks(bodies: &Bodies, joints: &Joints, ground_index: usize) -> (marks: Vec<bool>)
    requires
        distinct_body_ids(bodies@),
        first_joint_error(bodies@, joints@).is_none(),
        ground_index < bodies@.len(),
        bodies@[ground_index as int].id == BodyId(0),
    ensures
        marks@.len() == bodies@.len(),
        forall|a: int|
            0 <= a < bodies@.len() ==> (marks@[a] <==> connected_to_ground(
                joints@,
                #[trigger] bodies@[a].id,
            )),
{
    proof {
        lemma_first_joint_error_none(bodies@, joints@);
    }
    let n = bodies.len();
    let mut marks: Vec<bool> = Vec::new();
    let mut i: usize = 0;
    while i < n
        invariant
            i <= n,
            marks@.len() == i,
            forall|a: int| 0 <= a < i ==> !marks@[a],
        decreases n - i,
    {
        marks.push(false);
        i = i + 1;
    }
    proof {
        lemma_count_true_none(marks@);
        lemma_count_true_set(marks@, ground_index as int);
        lemma_reaches_refl(joint_graph(joints@), 0);
    }
    marks.set(ground_index, true);
    let mut count: usize = 1;
    let joint_count = joints.len();
    let mut changed = true;
    while changed
        invariant
            n == bodies@.len(),
            joint_count == joints@.len(),
            distinct_body_ids(bodies@),
            forall|q: int|
                0 <= q < joints@.len() ==> joint_reference_error(bodies@, #[trigger] joints@[q]).is_none(),
            ground_index < n,
            bodies@[ground_index as int].id == BodyId(0),
            marks@.len() == n,
            count == count_true(marks@),
            marks@[ground_index as int],
            forall|a: int|
                0 <= a < n && #[trigger] marks@[a] ==> connected_to_ground(joints@, bodies@[a].id),
            !changed ==> forall|q: int|
                0 <= q < joint_count ==> joint_marks_agree(bodies@, joints@, marks@, q),
        decreases n - count + if changed {
            1int
        } else {
            0int
        },
    {
        proof {
            lemma_count_true_bound(marks@);
        }
        let ghost count0 = count;
        changed = false;
        let mut k: usize = 0;
        while k < joint_count
            invariant
                k <= joint_count,
                n == bodies@.len(),
                joint_count == joints@.len(),
                distinct_body_ids(bodies@),
                forall|q: int|
                    0 <= q < joints@.len() ==> joint_reference_error(bodies@, #[trigger] joints@[q]).is_none(),
                ground_index < n,
                marks@.len() == n,
                count == count_true(marks@),
                count0 <= count,
                count0 <= n,
                marks@[ground_index as int],
                forall|a: int|
                    0 <= a < n && #[trigger] marks@[a] ==> connected_to_ground(joints@, bodies@[a].id),
                changed ==> count0 < count,
                !changed ==> forall|q: int|
                    0 <= q < k ==> joint_marks_agree(bodies@, joints@, marks@, q),
            decreases joint_count - k,
        {
            let joint = joints.at(k);
            assert(joint_reference_error(bodies@, joints@[k as int]).is_none());
            let ii = match bodies.index_of(joint.i_marker.body_id) {
                Some(index) => index,
                None => {
                    assert(false);
                    0
                },
            };
            let jj = match bodies.index_of(joint.j_marker.body_id) {
                Some(index) => index,
                None => {
                    assert(false);
                    0
                },
            };
            let ghost graph = joint_graph(joints@);
            assert(joint_links(joints@[k as int], i_body(*joint), j_body(*joint)));
            assert(joint_links(joints@[k as int], j_body(*joint), i_body(*joint)));
            assert(graph(i_body(*joint), j_body(*joint)));
            assert(graph(j_body(*joint), i_body(*joint)));
            if marks[ii] && !marks[jj] {
                proof {
                    lemma_reaches_step(graph, 0, i_body(*joint), j_body(*joint));
                    lemma_count_true_set(marks@, jj as int);
                    lemma_count_true_bound(marks@.update(jj as int, true));
                }
                marks.set(jj, true);
                count = count + 1;
                changed = true;
            } else if marks[jj] && !marks[ii] {
                proof {
                    lemma_reaches_step(graph, 0, j_body(*joint), i_body(*joint));
                    lemma_count_true_set(marks@, ii as int);
                    lemma_count_true_bound(marks@.update(ii as int, true));
                }
                marks.set(ii, true);
                count = count + 1;
                changed = true;
            } else {
                proof {
                    if !changed {
                        assert forall|a: int, b: int|
                            0 <= a < bodies@.len() && 0 <= b < bodies@.len() && (
                            #[trigger] bodies@[a]).id.0 == i_body(joints@[k as int]) && (
                            #[trigger] bodies@[b]).id.0 == j_body(joints@[k as int]) implies marks@[a]
                            == marks@[b] by {
                            assert(a == ii);
                            assert(b == jj);
                        }
                        assert(joint_marks_agree(bodies@, joints@, marks@, k as int));
                    }
                }
            }
            k = k + 1;
        }
        proof {
            lemma_count_true_bound(marks@);
        }
    }
    proof {
        let graph = joint_graph(joints@);
        let s = |x: u32| exists|a: int| 0 <= a < n && (#[trigger] bodies@[a]).id.0 == x && marks@[a];
        assert forall|x: u32, y: u32| s(x) && #[trigger] graph(x, y) implies s(y) by {
            let a = choose|a: int| 0 <= a < n && (#[trigger] bodies@[a]).id.0 == x && marks@[a];
            let q = choose|q: int| 0 <= q < joints@.len() && joint_links(#[trigger] joints@[q], x, y);
            assert(joint_reference_error(bodies@, joints@[q]).is_none());
            assert(joint_marks_agree(bodies@, joints@, marks@, q));
            if i_body(joints@[q]) == x {
                let b = choose|b: int| 0 <= b < n && (#[trigger] bodies@[b]).id == joints@[q].j_marker.body_id;
                assert(marks@[b]);
            } else {
                let b = choose|b: int| 0 <= b < n && (#[trigger] bodies@[b]).id == joints@[q].i_marker.body_id;
                assert(marks@[b]);
            }
        }
        assert(s(0));
        assert forall|a: int| 0 <= a < n implies (marks@[a] <==> connected_to_ground(
            joints@,
            #[trigger] bodies@[a].id,
        )) by {
            if connected_to_ground(joints@, bodies@[a].id) {
                lemma_closed_holds_reached(graph, s, 0, bodies@[a].id.0);
                let c = choose|c: int| 0 <= c < n && (#[trigger] bodies@[c]).id.0 == bodies@[a].id.0 && marks@[c];
                assert(c == a);
            }
        }
    }
    marks
}

proof fn lemma_first_joint_error_prefix(bodies: Seq<Body>, joints: Seq<Joint>, k: int)
    requires
        0 < k <= joints.len(),
        first_joint_error(bodies, joints.take(k - 1)).is_none(),
        joint_reference_error(bodies, joints[k - 1]).is_some(),
    ensures
        first_joint_error(bodies, joints) == joint_reference_error(bodies, joints[k - 1]),
    decreases joints.len(),
{
    if k < joints.len() {
        assert(joints.drop_last().take(k - 1) =~= joints.take(k - 1));
        lemma_first_joint_error_prefix(bodies, joints.drop_last(), k);
    } else {
        assert(joints.take(k - 1) =~= joints.drop_last());
    }
}

/// No first joint error means no joint has a reference error.
pub proof fn lemma_first_joint_error_none(bodies: Seq<Body>, joints: Seq<Joint>)
    ensures
        first_joint_error(bodies, joints).is_none() <==> forall|q: int|
            0 <= q < joints.len() ==> joint_reference_error(bodies, #[trigger] joints[q]).is_none(),
    decreases joints.len(),
{
    if joints.len() > 0 {
        let init = joints.drop_last();
        lemma_first_joint_error_none(bodies, init);
        assert forall|q: int| 0 <= q < init.len() implies #[trigger] init[q] == joints[q] by {}
        assert(joints.last() == joints[joints.len() - 1]);
        if forall|q: int|
            0 <= q < joints.len() ==> joint_reference_error(bodies, #[trigger] joints[q]).is_none() {
            assert forall|q: int| 0 <= q < init.len() implies joint_reference_error(
                bodies,
                #[trigger] init[q],
            ).is_none() by {
                assert(init[q] == joints[q]);
            }
        }
        if first_joint_error(bodies, joints).is_none() {
            assert forall|q: int| 0 <= q < joints.len() implies joint_reference_error(
                bodies,
                #[trigger] joints[q],
            ).is_none() by {
                if q < init.len() {
                    assert(init[q] == joints[q]);
                }
            }
        }
    }
}

proof fn lemma_first_free_body_prefix(bodies: Seq<Body>, joints: Seq<Joint>, k: int)
    requires
        0 < k <= bodies.len(),
        first_free_body(bodies.take(k - 1), joints).is_none(),
        !connected_to_ground(joints, bodies[k - 1].id),
    ensures
        first_free_body(bodies, joints) == Some(bodies[k - 1].id),
    decreases bodies.len(),
{
    if k < bodies.len() {
        assert(bodies.drop_last().take(k - 1) =~= bodies.take(k - 1));
        lemma_first_free_body_prefix(bodies.drop_last(), joints, k);
    } else {
        assert(bodies.take(k - 1) =~= bodies.drop_last());
    }
}

/// No first free body means every body is connected to ground.
pub proof fn lemma_first_free_body_none(bodies: Seq<Body>, joints: Seq<Joint>)
    ensures
        first_free_body(bodies, joints).is_none() <==> forall|a: int|
            0 <= a < bodies.len() ==> connected_to_ground(joints, #[trigger] bodies[a].id),
    decreases bodies.len(),
{
    if bodies.len() > 0 {
        let init = bodies.drop_last();
        lemma_first_free_body_none(init, joints);
        assert forall|a: int| 0 <= a < init.len() implies #[trigger] init[a] == bodies[a] by {}
        assert(bodies.last() == bodies[bodies.len() - 1]);
        if forall|a: int| 0 <= a < bodies.len() ==> connected_to_ground(joints, #[trigger] bodies[a].id) {
            assert forall|a: int| 0 <= a < init.len() implies connected_to_ground(
                joints,
                #[trigger] init[a].id,
            ) by {
                assert(init[a] == bodies[a]);
            }
        }
        if first_free_body(bodies, joints).is_none() {
            assert forall|a: int| 0 <= a < bodies.len() implies connected_to_ground(
                joints,
                #[trigger] bodies[a].id,
            ) by {
                if a < init.len() {
                    assert(init[a] == bodies[a]);
                }
            }
        }
    }
}

#[derive(Debug, PartialEq, Eq, Structural)]
#[non_exhaustive]
pub enum ModelBuildError {
    InvalidJointReference { joint_id: JointId, body_id: BodyId },
    MissingGround,
    DuplicateBodyId(BodyId),
    DuplicateJointId(JointId),
    FreeBody(BodyId),
    SelfConnectingJoint { joint_id: JointId, body_id: BodyId },
}

/// The message that reports `e`.
pub open spec fn model_error_text(e: ModelBuildError) -> Seq<char> {
    match e {
        ModelBuildError::InvalidJointReference { joint_id, body_id } => "joint `"@ + joint_id_text(joint_id)
            + "` references an invalid body ID `"@ + body_id_text(body_id) + "`"@,
        ModelBuildError::MissingGround => "model does not contain ground body 0"@,
        ModelBuildError::DuplicateBodyId(id) => "duplicate body ID `"@ + body_id_text(id) + "`"@,
        ModelBuildError::DuplicateJointId(id) => "duplicate joint ID `"@ + joint_id_text(id) + "`"@,
        ModelBuildError::FreeBody(id) => "body `"@ + body_id_text(id) + "` is not connected to ground"@,
        ModelBuildError::SelfConnectingJoint { joint_id, body_id } => "joint `"@ + joint_id_text(joint_id)
            + "` connects body `"@ + body_id_text(body_id) + "` to itself"@,
    }
}

impl ModelBuildError {
    /// The message that reports the error.
    pub fn message(&self) -> (text: String)
        ensures
            text@ == model_error_text(*self),
    {
        let mut text = String::new();
        match self {
            ModelBuildError::InvalidJointReference { joint_id, body_id } => {
                push_str(&mut text, "joint `");
                push_joint_id(&mut text, *joint_id);
                push_str(&mut text, "` references an invalid body ID `");
                push_body_id(&mut text, *body_id);
                push_str(&mut text, "`");
            },
            ModelBuildError::MissingGround => {
                push_str(&mut text, "model does not contain ground body 0");
            },
            ModelBuildError::DuplicateBodyId(id) => {
                push_str(&mut text, "duplicate body ID `");
                push_body_id(&mut text, *id);
                push_str(&mut text, "`");
            },
            ModelBuildError::DuplicateJointId(id) => {
                push_str(&mut text, "duplicate joint ID `");
                push_joint_id(&mut text, *id);
                push_str(&mut text, "`");
            },
            ModelBuildError::FreeBody(id) => {
                push_str(&mut text, "body `");
                push_body_id(&mut text, *id);
                push_str(&mut text, "` is not connected to ground");
            },
            ModelBuildError::SelfConnectingJoint { joint_id, body_id } => {
                push_str(&mut text, "joint `");
                push_joint_id(&mut text, *joint_id);
                push_str(&mut text, "` connects body `");
                push_body_id(&mut text, *body_id);
                push_str(&mut text, "` to itself");
            },
        }
        text
    }
}

} // verus!
