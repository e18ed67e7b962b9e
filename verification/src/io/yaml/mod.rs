//! The YAML input format and its conversion into an input of the model.
//!
//! A document names hardpoints, bodies, joints and motions, each section a
//! map from names to entries, taken in the order of their names. Ground is
//! not written down: it is body 0, named `ground`, and comes first. The
//! coordinates, orientations and displacements of the document are kept by
//! the caller, who also checks that they are finite; here the document is
//! held as far as its structure goes, and converted into bodies, joints and
//! motions with every reference checked.
use vstd::prelude::*;

pub mod joints;
pub mod orientation;
pub mod side;

use crate::model::{
    Bodies, Body, BodyId, Input, Joint, JointId, JointKind, JointRole, Joints, Marker, Model,
    ModelBuildError, Motion, MotionKind, first_duplicate_body, first_duplicate_joint, has_body,
    lemma_validation_ignores_names, lemma_first_duplicate_body_congruent, model_error, same_body_ids,
    same_joint_links, model_error_text,
};
use crate::text::{decimal, push_decimal, push_str, suffixed};

verus! {

/// The role of a joint as written in the input; `auto` when left out.
#[derive(Debug, Clone, Copy, PartialEq, Eq, Structural)]
pub enum YamlJointRole {
    Auto,
    Primary,
    Secondary,
}

impl YamlJointRole {
    pub fn into_joint_role(self) -> (role: JointRole)
        ensures
            role == match self {
                YamlJointRole::Auto => JointRole::Auto,
                YamlJointRole::Primary => JointRole::Primary,
                YamlJointRole::Secondary => JointRole::Secondary,
            },
    {
        match self {
            YamlJointRole::Auto => JointRole::Auto,
            YamlJointRole::Primary => JointRole::Primary,
            YamlJointRole::Secondary => JointRole::Secondary,
        }
    }
}

impl Default for YamlJointRole {
    fn default() -> (role: Self)
        ensures
            role == YamlJointRole::Auto,
    {
        YamlJointRole::Auto
    }
}

#[derive(Debug, Clone, Copy, PartialEq, Eq, Structural)]
pub enum YamlSide {
    Single,
    Left,
    Right,
}

/// The kind of a joint as written in the input.
#[derive(Debug, Clone, Copy, PartialEq, Eq, Structural)]
pub enum YamlJointKind {
    Spherical,
}

impl YamlJointKind {
    pub fn into_joint_kind(self) -> (kind: JointKind)
        ensures
            kind == JointKind::Spherical,
    {
        match self {
            YamlJointKind::Spherical => JointKind::Spherical,
        }
    }
}

/// Where a body or marker is: at a named hardpoint, or at coordinates
/// given in place (kept by the caller).
#[derive(Debug, PartialEq, Eq)]
pub enum YamlPosition {
    Hardpoint(String),
    Coordinates,
}

#[derive(Debug, PartialEq, Eq)]
pub struct YamlBody {
    pub body_id: u32,
    pub side: YamlSide,
    pub position: YamlPosition,
    /// The hardpoints that move with the body.
    pub points_on_body: Vec<String>,
}

#[derive(Debug, PartialEq, Eq)]
pub struct YamlMarker {
    pub body_id: u32,
    pub position: YamlPosition,
}

#[derive(Debug, PartialEq, Eq)]
pub struct YamlJoint {
    pub joint_id: u32,
    pub kind: YamlJointKind,
    pub role: YamlJointRole,
    pub i: YamlMarker,
    pub j: YamlMarker,
}

/// A joint coordinate that a motion can prescribe.
#[derive(Debug, Clone, Copy, PartialEq, Eq, Structural)]
pub enum YamlJointDisplacement {
    RotX,
    RotY,
    RotZ,
}

/// A joint-coordinate motion: its joint, and the coordinates its
/// displacement prescribes (their values are kept by the caller).
#[derive(Debug, PartialEq, Eq)]
pub struct YamlMotion {
    pub joint_id: u32,
    pub displacement: Vec<YamlJointDisplacement>,
}

impl YamlMotion {
    /// Checks the motion called `name`: its displacement must prescribe at
    /// least one coordinate.
    pub fn validate(&self, name: &str) -> (result: Result<(), YamlError>)
        ensures
            self.displacement@.len() == 0 ==> (result matches Err(YamlError::EmptyMotionDisplacement {
                name: n,
            }) && n@ == name@),
            self.displacement@.len() > 0 ==> result is Ok,
    {
        if self.displacement.len() == 0 {
            Err(YamlError::EmptyMotionDisplacement { name: name.to_owned() })
        } else {
            Ok(())
        }
    }
}

/// The name of the first motion, in order, whose displacement prescribes
/// nothing.
pub open spec fn first_empty_motion(motions: Seq<(String, YamlMotion)>) -> Option<String>
    decreases motions.len(),
{
    if motions.len() == 0 {
        None
    } else {
        match first_empty_motion(motions.drop_last()) {
            Some(name) => Some(name),
            None => if motions.last().1.displacement@.len() == 0 {
                Some(motions.last().0)
            } else {
                None
            },
        }
    }
}

/// The first motion whose displacement prescribes nothing, as the error
/// that reports it.
fn check_motions(motions: &Vec<(String, YamlMotion)>) -> (fault: Option<YamlError>)
    ensures
        match first_empty_motion(motions@) {
            Some(name) => fault == Some(YamlError::EmptyMotionDisplacement { name }),
            None => fault is None,
        },
{
    let n = motions.len();
    let mut k: usize = 0;
    while k < n
        invariant
            k <= n,
            n == motions@.len(),
            first_empty_motion(motions@.take(k as int)) is None,
        decreases n - k,
    {
        assert(motions@.take(k + 1).drop_last() =~= motions@.take(k as int));
        assert(motions@.take(k + 1).last() == motions@[k as int]);
        if motions[k].1.displacement.len() == 0 {
            proof {
                lemma_first_empty_motion_prefix(motions@, (k + 1) as int);
            }
            return Some(YamlError::EmptyMotionDisplacement { name: motions[k].0.clone() });
        }
        k = k + 1;
    }
    assert(motions@.take(n as int) =~= motions@);
    None
}

proof fn lemma_first_empty_motion_prefix(motions: Seq<(String, YamlMotion)>, end: int)
    requires
        0 <= end <= motions.len(),
        first_empty_motion(motions.take(end)).is_some(),
    ensures
        first_empty_motion(motions) == first_empty_motion(motions.take(end)),
    decreases motions.len() - end,
{
    if end < motions.len() {
        assert(motions.take(end + 1).drop_last() =~= motions.take(end));
        lemma_first_empty_motion_prefix(motions, end + 1);
    } else {
        assert(motions.take(end) =~= motions);
    }
}

/// The structure of a YAML input document, each section in name order.
#[derive(Debug, PartialEq, Eq)]
pub struct YamlInput {
    /// The names of the hardpoints.
    pub hardpoints: Vec<String>,
    pub bodies: Vec<(String, YamlBody)>,
    pub joints: Vec<(String, YamlJoint)>,
    pub motions: Vec<(String, YamlMotion)>,
}

/// Why a document does not describe a model.
#[derive(Debug, PartialEq, Eq)]
pub enum YamlError {
    /// A body is at, or carries, a hardpoint that does not exist.
    UnknownHardpoint { name: String, point: String },
    /// A marker is at a hardpoint that does not exist.
    UnknownMarkerHardpoint { name: String, point: String },
    /// A marker is on a body that does not exist.
    UnknownJointBody { name: String, body_id: u32 },
    /// A body takes identifier 0, which ground has.
    ExplicitGround { name: String },
    /// A motion whose displacement prescribes no coordinate.
    EmptyMotionDisplacement { name: String },
    Model(ModelBuildError),
}

/// The message that reports `e`.
pub open spec fn yaml_error_text(e: YamlError) -> Seq<char> {
    match e {
        YamlError::UnknownHardpoint { name, point } => "body `"@ + name@ + "` references unknown hardpoint `"@
            + point@ + "`"@,
        YamlError::UnknownMarkerHardpoint { name, point } => "marker `"@ + name@
            + "` references unknown hardpoint `"@ + point@ + "`"@,
        YamlError::UnknownJointBody { name, body_id } => "marker `"@ + name@ + "` references unknown body '"@
            + decimal(body_id as nat) + "`"@,
        YamlError::ExplicitGround { name } => "body `"@ + name@ + "` uses reserved body ID 0; ground is implicit"@,
        YamlError::EmptyMotionDisplacement { name } => "motion `"@ + name@ + "` has empty displacement: {}"@,
        YamlError::Model(e) => model_error_text(e),
    }
}

impl YamlError {
    /// The message that reports the error.
    pub fn message(&self) -> (text: String)
        ensures
            text@ == yaml_error_text(*self),
    {
        let mut text = String::new();
        match self {
            YamlError::UnknownHardpoint { name, point } => {
                push_str(&mut text, "body `");
                push_str(&mut text, name.as_str());
                push_str(&mut text, "` references unknown hardpoint `");
                push_str(&mut text, point.as_str());
                push_str(&mut text, "`");
            },
            YamlError::UnknownMarkerHardpoint { name, point } => {
                push_str(&mut text, "marker `");
                push_str(&mut text, name.as_str());
                push_str(&mut text, "` references unknown hardpoint `");
                push_str(&mut text, point.as_str());
                push_str(&mut text, "`");
            },
            YamlError::UnknownJointBody { name, body_id } => {
                push_str(&mut text, "marker `");
                push_str(&mut text, name.as_str());
                push_str(&mut text, "` references unknown body '");
                push_decimal(&mut text, *body_id);
                push_str(&mut text, "`");
            },
            YamlError::ExplicitGround { name } => {
                push_str(&mut text, "body `");
                push_str(&mut text, name.as_str());
                push_str(&mut text, "` uses reserved body ID 0; ground is implicit");
            },
            YamlError::EmptyMotionDisplacement { name } => {
                push_str(&mut text, "motion `");
                push_str(&mut text, name.as_str());
                push_str(&mut text, "` has empty displacement: {}");
            },
            YamlError::Model(e) => {
                text = e.message();
            },
        }
        text
    }
}

/// Some hardpoint is called `name`.
pub open spec fn names_hardpoint(hardpoints: Seq<String>, name: String) -> bool {
    exists|k: int| 0 <= k < hardpoints.len() && (#[trigger] hardpoints[k])@ == name@
}

/// The position names no hardpoint that does not exist.
pub open spec fn position_known(hardpoints: Seq<String>, position: YamlPosition) -> bool {
    match position {
        YamlPosition::Hardpoint(name) => names_hardpoint(hardpoints, name),
        YamlPosition::Coordinates => true,
    }
}

/// The first of `points`, in order, that names no hardpoint.
pub open spec fn first_unknown_point(hardpoints: Seq<String>, points: Seq<String>) -> Option<String>
    decreases points.len(),
{
    if points.len() == 0 {
        None
    } else {
        match first_unknown_point(hardpoints, points.drop_last()) {
            Some(p) => Some(p),
            None => if names_hardpoint(hardpoints, points.last()) {
                None
            } else {
                Some(points.last())
            },
        }
    }
}

/// What is wrong with the hardpoints of body `name`: its position first,
/// then its points in order.
pub open spec fn body_fault(hardpoints: Seq<String>, name: String, body: YamlBody) -> Option<YamlError> {
    match body.position {
        YamlPosition::Hardpoint(point) => if !names_hardpoint(hardpoints, point) {
            Some(YamlError::UnknownHardpoint { name, point })
        } else {
            match first_unknown_point(hardpoints, body.points_on_body@) {
                Some(point) => Some(YamlError::UnknownHardpoint { name, point }),
                None => None,
            }
        },
        YamlPosition::Coordinates => match first_unknown_point(hardpoints, body.points_on_body@) {
            Some(point) => Some(YamlError::UnknownHardpoint { name, point }),
            None => None,
        },
    }
}

/// The fault of the first body, in order, that has one.
pub open spec fn first_body_fault(hardpoints: Seq<String>, bodies: Seq<(String, YamlBody)>) -> Option<YamlError>
    decreases bodies.len(),
{
    if bodies.len() == 0 {
        None
    } else {
        match first_body_fault(hardpoints, bodies.drop_last()) {
            Some(e) => Some(e),
            None => body_fault(hardpoints, bodies.last().0, bodies.last().1),
        }
    }
}

/// The name of the first body, in order, that takes identifier 0.
pub open spec fn first_explicit_ground(bodies: Seq<(String, YamlBody)>) -> Option<String>
    decreases bodies.len(),
{
    if bodies.len() == 0 {
        None
    } else {
        match first_explicit_ground(bodies.drop_last()) {
            Some(name) => Some(name),
            None => if bodies.last().1.body_id == 0 {
                Some(bodies.last().0)
            } else {
                None
            },
        }
    }
}

/// `bs` are the bodies of the document: ground, then each body by its
/// identifier and name.
pub open spec fn converted_bodies(bodies: Seq<(String, YamlBody)>, bs: Seq<Body>) -> bool {
    &&& bs.len() == bodies.len() + 1
    &&& bs[0].id == BodyId(0) && bs[0].name@ == "ground"@
    &&& forall|k: int|
        0 <= k < bodies.len() ==> (#[trigger] bs[k + 1]).id == BodyId(bodies[k].1.body_id) && bs[k + 1].name
            == bodies[k].0
}

/// Ground or some body of the document has identifier `id`.
pub open spec fn known_body(bodies: Seq<(String, YamlBody)>, id: u32) -> bool {
    id == 0 || exists|k: int| 0 <= k < bodies.len() && (#[trigger] bodies[k]).1.body_id == id
}

/// The role a joint takes.
pub open spec fn role_of(role: YamlJointRole) -> JointRole {
    match role {
        YamlJointRole::Auto => JointRole::Auto,
        YamlJointRole::Primary => JointRole::Primary,
        YamlJointRole::Secondary => JointRole::Secondary,
    }
}

/// `marker` is marker `m` of joint `name`, named after the joint and `suffix`.
pub open spec fn marker_converted(name: String, suffix: Seq<char>, m: YamlMarker, marker: Marker) -> bool {
    marker.name@ == name@ + suffix && marker.body_id == BodyId(m.body_id)
}

/// `joint` is the joint of entry `entry`, its markers named `<name>:i` and
/// `<name>:j`.
pub open spec fn joint_converted(entry: (String, YamlJoint), joint: Joint) -> bool {
    &&& joint.id == JointId(entry.1.joint_id)
    &&& joint.name == entry.0
    &&& joint.kind == JointKind::Spherical
    &&& joint.role == role_of(entry.1.role)
    &&& marker_converted(entry.0, ":i"@, entry.1.i, joint.i_marker)
    &&& marker_converted(entry.0, ":j"@, entry.1.j, joint.j_marker)
}

pub open spec fn converted_joints(joints: Seq<(String, YamlJoint)>, js: Seq<Joint>) -> bool {
    &&& js.len() == joints.len()
    &&& forall|k: int| 0 <= k < joints.len() ==> joint_converted(joints[k], #[trigger] js[k])
}

/// The joint refers to bodies and hardpoints that exist.
pub open spec fn joint_ok(bodies: Seq<(String, YamlBody)>, hardpoints: Seq<String>, joint: YamlJoint) -> bool {
    &&& known_body(bodies, joint.i.body_id)
    &&& known_body(bodies, joint.j.body_id)
    &&& position_known(hardpoints, joint.i.position)
    &&& position_known(hardpoints, joint.j.position)
}

/// `e` is the fault of joint `entry`: checked are the body of the I marker,
/// that of the J marker, the hardpoint of the I marker and that of the J
/// marker, in this order.
pub open spec fn joint_fault_is(
    bodies: Seq<(String, YamlBody)>,
    hardpoints: Seq<String>,
    entry: (String, YamlJoint),
    e: YamlError,
) -> bool {
    let (name, joint) = entry;
    if !known_body(bodies, joint.i.body_id) {
        e matches YamlError::UnknownJointBody { name: n, body_id } && n@ == name@ + ":i"@ && body_id
            == joint.i.body_id
    } else if !known_body(bodies, joint.j.body_id) {
        e matches YamlError::UnknownJointBody { name: n, body_id } && n@ == name@ + ":j"@ && body_id
            == joint.j.body_id
    } else if !position_known(hardpoints, joint.i.position) {
        e matches YamlError::UnknownMarkerHardpoint { name: n, point } && n@ == name@ + ":i"@ && joint.i.position
            == YamlPosition::Hardpoint(point)
    } else {
        e matches YamlError::UnknownMarkerHardpoint { name: n, point } && n@ == name@ + ":j"@ && joint.j.position
            == YamlPosition::Hardpoint(point)
    }
}

/// The position of the first joint, in order, that is not right.
pub open spec fn first_faulty_joint(
    bodies: Seq<(String, YamlBody)>,
    hardpoints: Seq<String>,
    joints: Seq<(String, YamlJoint)>,
) -> Option<int>
    decreases joints.len(),
{
    if joints.len() == 0 {
        None
    } else {
        match first_faulty_joint(bodies, hardpoints, joints.drop_last()) {
            Some(k) => Some(k),
            None => if joint_ok(bodies, hardpoints, joints.last().1) {
                None
            } else {
                Some(joints.len() - 1)
            },
        }
    }
}

/// `ms` are the motions of the document, each by name and joint.
pub open spec fn converted_motions(motions: Seq<(String, YamlMotion)>, ms: Seq<Motion>) -> bool {
    &&& ms.len() == motions.len()
    &&& forall|k: int|
        0 <= k < motions.len() ==> (#[trigger] ms[k]).name == motions[k].0 && ms[k].kind
            == MotionKind::JointCoordinates && ms[k].joint_id == JointId(motions[k].1.joint_id)
}

/// What converting the document gives once the bodies and joints are built
/// as `bs` and `js`: a repeated body identifier, else the first joint that
/// refers to something missing, else a repeated joint identifier, else the
/// model error, else the input.
pub open spec fn conversion_outcome(
    yaml: YamlInput,
    bs: Seq<Body>,
    js: Seq<Joint>,
    result: Result<Input, YamlError>,
) -> bool {
    let bodies = yaml.bodies@;
    let hardpoints = yaml.hardpoints@;
    let joints = yaml.joints@;
    match first_duplicate_body(bs) {
        Some(id) => result == Err::<Input, YamlError>(YamlError::Model(ModelBuildError::DuplicateBodyId(id))),
        None => match first_faulty_joint(bodies, hardpoints, joints) {
            Some(k) => result matches Err(e) && joint_fault_is(bodies, hardpoints, joints[k], e),
            None => match first_duplicate_joint(js) {
                Some(id) => result == Err::<Input, YamlError>(
                    YamlError::Model(ModelBuildError::DuplicateJointId(id)),
                ),
                None => match model_error(bs, js) {
                    Some(e) => result == Err::<Input, YamlError>(YamlError::Model(e)),
                    None => result matches Ok(input) && converted_bodies(bodies, input.spec_model().body_seq())
                        && converted_joints(joints, input.spec_model().joint_seq()) && converted_motions(
                        yaml.motions@,
                        input.motion_seq(),
                    ),
                },
            },
        },
    }
}

/// What converting the document gives: the first motion with an empty
/// displacement, else the first body hardpoint fault, else a body that takes
/// ground's identifier, else the outcome of building the bodies and joints
/// (the same for any names they are given, as validation does not read
/// names).
pub open spec fn into_input_matches(yaml: YamlInput, result: Result<Input, YamlError>) -> bool {
    match first_empty_motion(yaml.motions@) {
        Some(name) => result == Err::<Input, YamlError>(YamlError::EmptyMotionDisplacement { name }),
        None => conversion_matches(yaml, result),
    }
}

/// What converting a document whose motions all prescribe something gives.
pub open spec fn conversion_matches(yaml: YamlInput, result: Result<Input, YamlError>) -> bool {
    match first_body_fault(yaml.hardpoints@, yaml.bodies@) {
        Some(e) => result == Err::<Input, YamlError>(e),
        None => match first_explicit_ground(yaml.bodies@) {
            Some(name) => result == Err::<Input, YamlError>(YamlError::ExplicitGround { name }),
            None => forall|bs: Seq<Body>, js: Seq<Joint>|
                converted_bodies(yaml.bodies@, bs) && converted_joints(yaml.joints@, js) ==> #[trigger] conversion_outcome(
                    yaml,
                    bs,
                    js,
                    result,
                ),
        },
    }
}

proof fn lemma_first_unknown_point_prefix(hardpoints: Seq<String>, points: Seq<String>, end: int)
    requires
        0 <= end <= points.len(),
        first_unknown_point(hardpoints, points.take(end)).is_some(),
    ensures
        first_unknown_point(hardpoints, points) == first_unknown_point(hardpoints, points.take(end)),
    decreases points.len() - end,
{
    if end < points.len() {
        assert(points.take(end + 1).drop_last() =~= points.take(end));
        lemma_first_unknown_point_prefix(hardpoints, points, end + 1);
    } else {
        assert(points.take(end) =~= points);
    }
}

proof fn lemma_first_body_fault_prefix(hardpoints: Seq<String>, bodies: Seq<(String, YamlBody)>, end: int)
    requires
        0 <= end <= bodies.len(),
        first_body_fault(hardpoints, bodies.take(end)).is_some(),
    ensures
        first_body_fault(hardpoints, bodies) == first_body_fault(hardpoints, bodies.take(end)),
    decreases bodies.len() - end,
{
    if end < bodies.len() {
        assert(bodies.take(end + 1).drop_last() =~= bodies.take(end));
        lemma_first_body_fault_prefix(hardpoints, bodies, end + 1);
    } else {
        assert(bodies.take(end) =~= bodies);
    }
}

proof fn lemma_first_explicit_ground_prefix(bodies: Seq<(String, YamlBody)>, end: int)
    requires
        0 <= end <= bodies.len(),
        first_explicit_ground(bodies.take(end)).is_some(),
    ensures
        first_explicit_ground(bodies) == first_explicit_ground(bodies.take(end)),
    decreases bodies.len() - end,
{
    if end < bodies.len() {
        assert(bodies.take(end + 1).drop_last() =~= bodies.take(end));
        lemma_first_explicit_ground_prefix(bodies, end + 1);
    } else {
        assert(bodies.take(end) =~= bodies);
    }
}

proof fn lemma_first_faulty_joint_prefix(
    bodies: Seq<(String, YamlBody)>,
    hardpoints: Seq<String>,
    joints: Seq<(String, YamlJoint)>,
    end: int,
)
    requires
        0 <= end <= joints.len(),
        first_faulty_joint(bodies, hardpoints, joints.take(end)).is_some(),
    ensures
        first_faulty_joint(bodies, hardpoints, joints) == first_faulty_joint(bodies, hardpoints, joints.take(end)),
    decreases joints.len() - end,
{
    if end < joints.len() {
        assert(joints.take(end + 1).drop_last() =~= joints.take(end));
        lemma_first_faulty_joint_prefix(bodies, hardpoints, joints, end + 1);
    } else {
        assert(joints.take(end) =~= joints);
    }
}

/// Whether some hardpoint is called `name`.
fn has_hardpoint(hardpoints: &Vec<String>, name: &String) -> (found: bool)
    ensures
        found == names_hardpoint(hardpoints@, *name),
{
    let mut k: usize = 0;
    while k < hardpoints.len()
        invariant
            k <= hardpoints@.len(),
            forall|m: int| 0 <= m < k ==> (#[trigger] hardpoints@[m])@ != name@,
        decreases hardpoints@.len() - k,
    {
        if hardpoints[k] == *name {
            return true;
        }
        k = k + 1;
    }
    false
}

/// The hardpoint named by `position` if it does not exist.
fn unknown_position(hardpoints: &Vec<String>, position: &YamlPosition) -> (missing: Option<String>)
    ensures
        match *position {
            YamlPosition::Hardpoint(name) => if names_hardpoint(hardpoints@, name) {
                missing is None
            } else {
                missing == Some(name)
            },
            YamlPosition::Coordinates => missing is None,
        },
{
    match position {
        YamlPosition::Hardpoint(name) => if has_hardpoint(hardpoints, name) {
            None
        } else {
            Some(name.clone())
        },
        YamlPosition::Coordinates => None,
    }
}

/// The first of `points` that names no hardpoint.
fn unknown_point(hardpoints: &Vec<String>, points: &Vec<String>) -> (missing: Option<String>)
    ensures
        missing == first_unknown_point(hardpoints@, points@),
{
    let mut k: usize = 0;
    while k < points.len()
        invariant
            k <= points@.len(),
            first_unknown_point(hardpoints@, points@.take(k as int)).is_none(),
        decreases points@.len() - k,
    {
        assert(points@.take(k + 1).drop_last() =~= points@.take(k as int));
        assert(points@.take(k + 1).last() == points@[k as int]);
        if !has_hardpoint(hardpoints, &points[k]) {
            proof {
                lemma_first_unknown_point_prefix(hardpoints@, points@, (k + 1) as int);
            }
            return Some(points[k].clone());
        }
        k = k + 1;
    }
    assert(points@.take(points@.len() as int) =~= points@);
    None
}

/// What is wrong with the hardpoints of body `name`.
fn check_body(hardpoints: &Vec<String>, name: &String, body: &YamlBody) -> (fault: Option<YamlError>)
    ensures
        fault == body_fault(hardpoints@, *name, *body),
{
    match unknown_position(hardpoints, &body.position) {
        Some(point) => {
            return Some(YamlError::UnknownHardpoint { name: name.clone(), point });
        },
        None => {},
    }
    match unknown_point(hardpoints, &body.points_on_body) {
        Some(point) => Some(YamlError::UnknownHardpoint { name: name.clone(), point }),
        None => None,
    }
}

/// A body of `bs` has identifier `id` exactly when ground or a body of the
/// document has.
proof fn lemma_converted_bodies_known(bodies: Seq<(String, YamlBody)>, bs: Seq<Body>)
    requires
        converted_bodies(bodies, bs),
    ensures
        forall|id: u32| has_body(bs, BodyId(id)) == known_body(bodies, id),
{
    assert forall|id: u32| has_body(bs, BodyId(id)) == known_body(bodies, id) by {
        if has_body(bs, BodyId(id)) {
            let k = choose|k: int| 0 <= k < bs.len() && (#[trigger] bs[k]).id == BodyId(id);
            if k > 0 {
                assert(bs[(k - 1) + 1].id == BodyId(bodies[k - 1].1.body_id));
            }
        }
        if known_body(bodies, id) {
            if id == 0 {
                assert(bs[0].id == BodyId(id));
            } else {
                let k = choose|k: int| 0 <= k < bodies.len() && (#[trigger] bodies[k]).1.body_id == id;
                assert(bs[k + 1].id == BodyId(id));
            }
        }
    }
}

/// Whichever names the bodies and joints are given, building them has the
/// same outcome.
proof fn lemma_conversion_outcome_congruent(
    yaml: YamlInput,
    bs0: Seq<Body>,
    js0: Seq<Joint>,
    bs: Seq<Body>,
    js: Seq<Joint>,
    result: Result<Input, YamlError>,
)
    requires
        converted_bodies(yaml.bodies@, bs0),
        converted_joints(yaml.joints@, js0),
        converted_bodies(yaml.bodies@, bs),
        converted_joints(yaml.joints@, js),
        conversion_outcome(yaml, bs0, js0, result),
    ensures
        conversion_outcome(yaml, bs, js, result),
{
    assert(same_body_ids(bs, bs0)) by {
        assert forall|k: int| 0 <= k < bs.len() implies (#[trigger] bs[k]).id == bs0[k].id by {
            if k > 0 {
                assert(bs[(k - 1) + 1].id == bs0[(k - 1) + 1].id);
            }
        }
    }
    assert(same_joint_links(js, js0)) by {
        assert forall|k: int| 0 <= k < js.len() implies (#[trigger] js[k]).id == js0[k].id
            && js[k].i_marker.body_id == js0[k].i_marker.body_id && js[k].j_marker.body_id
            == js0[k].j_marker.body_id by {
            assert(joint_converted(yaml.joints@[k], js[k]));
            assert(joint_converted(yaml.joints@[k], js0[k]));
        }
    }
    lemma_validation_ignores_names(bs, js, bs0, js0);
}

/// Whichever names the bodies are given, the duplicate check and the
/// references of the joints have the same outcome, provided one of them
/// decides it.
proof fn lemma_early_outcome_congruent(yaml: YamlInput, bs0: Seq<Body>, result: Result<Input, YamlError>)
    requires
        converted_bodies(yaml.bodies@, bs0),
        first_duplicate_body(bs0).is_some() || first_faulty_joint(yaml.bodies@, yaml.hardpoints@, yaml.joints@).is_some(),
        forall|js: Seq<Joint>| #[trigger] conversion_outcome(yaml, bs0, js, result),
    ensures
        forall|bs: Seq<Body>, js: Seq<Joint>|
            converted_bodies(yaml.bodies@, bs) && converted_joints(yaml.joints@, js) ==> #[trigger] conversion_outcome(
                yaml,
                bs,
                js,
                result,
            ),
{
    assert forall|bs: Seq<Body>, js: Seq<Joint>|
        converted_bodies(yaml.bodies@, bs) && converted_joints(yaml.joints@, js) implies #[trigger] conversion_outcome(
        yaml,
        bs,
        js,
        result,
    ) by {
        assert(same_body_ids(bs, bs0)) by {
            assert forall|k: int| 0 <= k < bs.len() implies (#[trigger] bs[k]).id == bs0[k].id by {
                if k > 0 {
                    assert(bs[(k - 1) + 1].id == bs0[(k - 1) + 1].id);
                }
            }
        }
        lemma_first_duplicate_body_congruent(bs, bs0);
        assert(conversion_outcome(yaml, bs0, js, result));
    }
}

impl YamlInput {
    /// Converts the document into an input: checks that every motion
    /// prescribes something, then converts it.
    pub fn into_input(self) -> (result: Result<Input, YamlError>)
        ensures
            into_input_matches(self, result),
    {
        if let Some(e) = check_motions(&self.motions) {
            return Err(e);
        }
        self.convert()
    }

    /// Converts a document whose motions all prescribe something: checks the
    /// hardpoints of each body, that no body takes ground's identifier,
    /// builds ground and the bodies, checks the bodies and hardpoints of each
    /// joint, builds the joints and the model, and takes the motions over.
    fn convert(self) -> (result: Result<Input, YamlError>)
        ensures
            conversion_matches(self, result),
    {
        let ghost yaml = self;
        let YamlInput { hardpoints, bodies, joints, motions } = self;
        let ghost hps = hardpoints@;
        let ghost entries = bodies@;
        let ghost joint_entries = joints@;
        let n = bodies.len();
        let mut k: usize = 0;
        while k < n
            invariant
                k <= n,
                n == entries.len(),
                bodies@ == entries,
                hardpoints@ == hps,
                entries == yaml.bodies@,
                yaml == self,
                hps == yaml.hardpoints@,
                first_body_fault(hps, entries.take(k as int)).is_none(),
            decreases n - k,
        {
            let entry = &bodies[k];
            assert(entries.take(k + 1).drop_last() =~= entries.take(k as int));
            assert(entries.take(k + 1).last() == entries[k as int]);
            match check_body(&hardpoints, &entry.0, &entry.1) {
                Some(e) => {
                    proof {
                        lemma_first_body_fault_prefix(hps, entries, (k + 1) as int);
                    }
                    return Err(e);
                },
                None => {},
            }
            k = k + 1;
        }
        assert(entries.take(n as int) =~= entries);
        let mut k: usize = 0;
        while k < n
            invariant
                k <= n,
                n == entries.len(),
                bodies@ == entries,
                entries == yaml.bodies@,
                yaml == self,
                first_explicit_ground(entries.take(k as int)).is_none(),
                first_body_fault(yaml.hardpoints@, yaml.bodies@).is_none(),
            decreases n - k,
        {
            assert(entries.take(k + 1).drop_last() =~= entries.take(k as int));
            assert(entries.take(k + 1).last() == entries[k as int]);
            if bodies[k].1.body_id == 0 {
                proof {
                    lemma_first_explicit_ground_prefix(entries, (k + 1) as int);
                }
                return Err(YamlError::ExplicitGround { name: bodies[k].0.clone() });
            }
            k = k + 1;
        }
        assert(entries.take(n as int) =~= entries);
        let mut body_values: Vec<Body> = Vec::new();
        body_values.push(Body { id: BodyId(0), name: "ground".to_owned() });
        let mut k: usize = 0;
        while k < n
            invariant
                k <= n,
                n == entries.len(),
                bodies@ == entries,
                body_values@.len() == k + 1,
                yaml == self,
                first_body_fault(yaml.hardpoints@, yaml.bodies@).is_none(),
                first_explicit_ground(yaml.bodies@).is_none(),
                body_values@[0].id == BodyId(0) && body_values@[0].name@ == "ground"@,
                forall|m: int|
                    0 <= m < k ==> (#[trigger] body_values@[m + 1]).id == BodyId(entries[m].1.body_id)
                        && body_values@[m + 1].name == entries[m].0,
            decreases n - k,
        {
            body_values.push(Body { id: BodyId(bodies[k].1.body_id), name: bodies[k].0.clone() });
            k = k + 1;
        }
        let ghost bs0 = body_values@;
        assert(converted_bodies(entries, bs0));
        proof {
            lemma_converted_bodies_known(entries, bs0);
        }
        let body_table = match Bodies::new(body_values) {
            Ok(table) => table,
            Err(e) => {
                let result = Err(YamlError::Model(e));
                proof {
                    lemma_early_outcome_congruent(yaml, bs0, result);
                }
                return result;
            },
        };
        let m = joints.len();
        let mut joint_values: Vec<Joint> = Vec::new();
        let mut k: usize = 0;
        while k < m
            invariant
                k <= m,
                m == joint_entries.len(),
                joints@ == joint_entries,
                hardpoints@ == hps,
                body_table@ == bs0,
                entries == yaml.bodies@,
                yaml == self,
                hps == yaml.hardpoints@,
                joint_entries == yaml.joints@,
                converted_bodies(entries, bs0),
                first_duplicate_body(bs0).is_none(),
                first_body_fault(yaml.hardpoints@, yaml.bodies@).is_none(),
                first_explicit_ground(yaml.bodies@).is_none(),
                forall|id: u32| has_body(bs0, BodyId(id)) == known_body(entries, id),
                first_faulty_joint(entries, hps, joint_entries.take(k as int)).is_none(),
                joint_values@.len() == k,
                forall|q: int| 0 <= q < k ==> joint_converted(joint_entries[q], #[trigger] joint_values@[q]),
            decreases m - k,
        {
            let entry = &joints[k];
            let name = &entry.0;
            let joint = &entry.1;
            assert(joint_entries.take(k + 1).drop_last() =~= joint_entries.take(k as int));
            assert(joint_entries.take(k + 1).last() == joint_entries[k as int]);
            if !body_table.contains(BodyId(joint.i.body_id)) {
                proof {
                    lemma_first_faulty_joint_prefix(entries, hps, joint_entries, (k + 1) as int);
                }
                let result = Err(
                    YamlError::UnknownJointBody { name: suffixed(name.as_str(), ":i"), body_id: joint.i.body_id },
                );
                proof {
                    lemma_early_outcome_congruent(yaml, bs0, result);
                }
                return result;
            }
            if !body_table.contains(BodyId(joint.j.body_id)) {
                proof {
                    lemma_first_faulty_joint_prefix(entries, hps, joint_entries, (k + 1) as int);
                }
                let result = Err(
                    YamlError::UnknownJointBody { name: suffixed(name.as_str(), ":j"), body_id: joint.j.body_id },
                );
                proof {
                    lemma_early_outcome_congruent(yaml, bs0, result);
                }
                return result;
            }
            match unknown_position(&hardpoints, &joint.i.position) {
                Some(point) => {
                    proof {
                        lemma_first_faulty_joint_prefix(entries, hps, joint_entries, (k + 1) as int);
                    }
                    let result = Err(
                        YamlError::UnknownMarkerHardpoint { name: suffixed(name.as_str(), ":i"), point },
                    );
                    proof {
                        lemma_early_outcome_congruent(yaml, bs0, result);
                    }
                    return result;
                },
                None => {},
            }
            match unknown_position(&hardpoints, &joint.j.position) {
                Some(point) => {
                    proof {
                        lemma_first_faulty_joint_prefix(entries, hps, joint_entries, (k + 1) as int);
                    }
                    let result = Err(
                        YamlError::UnknownMarkerHardpoint { name: suffixed(name.as_str(), ":j"), point },
                    );
                    proof {
                        lemma_early_outcome_congruent(yaml, bs0, result);
                    }
                    return result;
                },
                None => {},
            }
            joint_values.push(
                Joint {
                    id: JointId(joint.joint_id),
                    name: name.clone(),
                    kind: joint.kind.into_joint_kind(),
                    role: joint.role.into_joint_role(),
                    i_marker: Marker { name: suffixed(name.as_str(), ":i"), body_id: BodyId(joint.i.body_id) },
                    j_marker: Marker { name: suffixed(name.as_str(), ":j"), body_id: BodyId(joint.j.body_id) },
                },
            );
            k = k + 1;
        }
        assert(joint_entries.take(m as int) =~= joint_entries);
        let ghost js0 = joint_values@;
        assert(converted_joints(joint_entries, js0));
        let joint_table = match Joints::new(joint_values) {
            Ok(table) => table,
            Err(e) => {
                let result = Err(YamlError::Model(e));
                proof {
                    assert forall|bs: Seq<Body>, js: Seq<Joint>|
                        converted_bodies(entries, bs) && converted_joints(joint_entries, js) implies #[trigger] conversion_outcome(
                        yaml,
                        bs,
                        js,
                        result,
                    ) by {
                        lemma_conversion_outcome_congruent(yaml, bs0, js0, bs, js, result);
                    }
                }
                return result;
            },
        };
        let model = match Model::new(body_table, joint_table) {
            Ok(model) => model,
            Err(e) => {
                let result = Err(YamlError::Model(e));
                proof {
                    assert forall|bs: Seq<Body>, js: Seq<Joint>|
                        converted_bodies(entries, bs) && converted_joints(joint_entries, js) implies #[trigger] conversion_outcome(
                        yaml,
                        bs,
                        js,
                        result,
                    ) by {
                        lemma_conversion_outcome_congruent(yaml, bs0, js0, bs, js, result);
                    }
                }
                return result;
            },
        };
        let ghost motion_entries = motions@;
        let q = motions.len();
        let mut motion_values: Vec<Motion> = Vec::new();
        let mut k: usize = 0;
        while k < q
            invariant
                k <= q,
                q == motion_entries.len(),
                motions@ == motion_entries,
                motion_values@.len() == k,
                yaml == self,
                forall|p: int|
                    0 <= p < k ==> (#[trigger] motion_values@[p]).name == motion_entries[p].0 && motion_values@[p].kind
                        == MotionKind::JointCoordinates && motion_values@[p].joint_id == JointId(
                        motion_entries[p].1.joint_id,
                    ),
            decreases q - k,
        {
            motion_values.push(
                Motion {
                    name: motions[k].0.clone(),
                    kind: MotionKind::JointCoordinates,
                    joint_id: JointId(motions[k].1.joint_id),
                },
            );
            k = k + 1;
        }
        let result = Ok(Input::new(model, motion_values));
        proof {
            assert forall|bs: Seq<Body>, js: Seq<Joint>|
                converted_bodies(entries, bs) && converted_joints(joint_entries, js) implies #[trigger] conversion_outcome(
                yaml,
                bs,
                js,
                result,
            ) by {
                lemma_conversion_outcome_congruent(yaml, bs0, js0, bs, js, result);
            }
        }
        result
    }
}

} // verus!
