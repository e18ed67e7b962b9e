use kinemagic::model::bodies::BodyId as TableBodyId;
use kinemagic::model::joints::{JointKey, JointTopology};
use kinemagic::model::side::Side;
use kinemagic::model::{
    Bodies, Body, BodyId, Input, Joint, JointId, JointKind, JointRole, Joints, Marker, Model,
    ModelBuildError, Motion, MotionKind,
};

fn body(id: BodyId, name: &str) -> Body {
    Body::new(id, name)
}

fn marker(name: &str, body_id: BodyId) -> Marker {
    Marker::new(name, body_id)
}

fn joint(id: JointId, name: &str, i_body: BodyId, j_body: BodyId) -> Joint {
    Joint::new(
        id,
        name,
        JointKind::Spherical,
        JointRole::Auto,
        marker("i", i_body),
        marker("j", j_body),
    )
}

#[test]
fn build_body() {
    let id = BodyId::new(1);
    let body = Body::new(id, "body");

    assert_eq!(body.id(), id);
    assert_eq!(body.name(), "body");
}

#[test]
fn build_marker() {
    let body_id = BodyId::new(1);
    let marker = Marker::new("marker", body_id);

    assert_eq!(marker.name(), "marker");
    assert_eq!(marker.body_id(), body_id);
}

#[test]
fn build_joint() {
    let i_body = BodyId::new(1);
    let j_body = BodyId::new(2);
    let i_marker = Marker::new("i-marker", i_body);
    let j_marker = Marker::new("j-marker", j_body);
    let joint = Joint::new(
        JointId::new(1),
        "joint",
        JointKind::Spherical,
        JointRole::Auto,
        i_marker,
        j_marker,
    );

    assert_eq!(joint.id(), JointId::new(1));
    assert_eq!(joint.name(), "joint");
    assert_eq!(joint.kind(), JointKind::Spherical);
    assert_eq!(joint.role(), JointRole::Auto);
    assert_eq!(joint.i_marker().body_id(), i_body);
    assert_eq!(joint.j_marker().body_id(), j_body);
    assert_eq!(joint.i_marker().name(), "i-marker");
    assert_eq!(joint.j_marker().name(), "j-marker");
}

#[test]
fn build_one_body_model() -> Result<(), ModelBuildError> {
    let bodies = Bodies::new(vec![body(BodyId::ground(), "ground"), body(BodyId::new(1), "body")])?;
    let joints = Joints::new(vec![joint(JointId::new(1), "joint_1", BodyId::new(0), BodyId::new(1))])?;

    let model = Model::new(bodies, joints)?;

    assert_eq!(model.bodies().iter().count(), 2);
    assert_eq!(model.joints().iter().count(), 1);

    Ok(())
}

#[test]
fn build_two_body_model() -> Result<(), ModelBuildError> {
    let bodies = Bodies::new(vec![
        body(BodyId::ground(), "ground"),
        body(BodyId::new(1), "body 1"),
        body(BodyId::new(2), "body 2"),
    ])?;
    let joints = Joints::new(vec![
        joint(JointId::new(1), "joint_1", BodyId::new(0), BodyId::new(1)),
        joint(JointId::new(2), "joint_2", BodyId::new(1), BodyId::new(2)),
    ])?;

    let model = Model::new(bodies, joints)?;

    assert_eq!(model.bodies().iter().count(), 3);
    assert_eq!(model.joints().iter().count(), 2);

    Ok(())
}

#[test]
fn rejects_missing_i_body() -> Result<(), ModelBuildError> {
    let bodies = Bodies::new(vec![body(BodyId::ground(), "ground"), body(BodyId::new(1), "body")])?;
    let joints = Joints::new(vec![joint(JointId::new(1), "joint_1", BodyId::new(99), BodyId::new(1))])?;

    let model = Model::new(bodies, joints);

    assert!(matches!(
        model,
        Err(ModelBuildError::InvalidJointReference { body_id, .. }) if body_id == BodyId::new(99)
    ));

    Ok(())
}

#[test]
fn rejects_missing_j_body() -> Result<(), ModelBuildError> {
    let bodies = Bodies::new(vec![body(BodyId::ground(), "ground"), body(BodyId::new(1), "body")])?;
    let joints = Joints::new(vec![joint(JointId::new(1), "joint_1", BodyId::new(1), BodyId::new(99))])?;

    let model = Model::new(bodies, joints);

    assert!(matches!(
        model,
        Err(ModelBuildError::InvalidJointReference { body_id, .. }) if body_id == BodyId::new(99)
    ));

    Ok(())
}

#[test]
fn rejects_disconnected_body() -> Result<(), ModelBuildError> {
    let bodies = Bodies::new(vec![
        body(BodyId::ground(), "ground"),
        body(BodyId::new(1), "connected body"),
        body(BodyId::new(2), "disconnected body"),
    ])?;
    let joints = Joints::new(vec![joint(JointId::new(1), "joint_1", BodyId::new(0), BodyId::new(1))])?;

    let model = Model::new(bodies, joints);

    assert!(matches!(model, Err(ModelBuildError::FreeBody(id)) if id == BodyId::new(2)));

    Ok(())
}

#[test]
fn rejects_disconnected_bodies_cluster() -> Result<(), ModelBuildError> {
    let bodies = Bodies::new(vec![
        body(BodyId::ground(), "ground"),
        body(BodyId::new(1), "connected body"),
        body(BodyId::new(2), "disconnected body 1"),
        body(BodyId::new(3), "disconnected body 2"),
    ])?;
    let joints = Joints::new(vec![
        joint(JointId::new(1), "joint_1", BodyId::new(0), BodyId::new(1)),
        joint(JointId::new(2), "joint_2", BodyId::new(2), BodyId::new(3)),
    ])?;

    let model = Model::new(bodies, joints);

    assert!(matches!(model, Err(ModelBuildError::FreeBody(id)) if id == BodyId::new(2)));

    Ok(())
}

#[test]
fn rejects_ground_missing() -> Result<(), ModelBuildError> {
    let bodies = Bodies::new(vec![body(BodyId::new(1), "body 1"), body(BodyId::new(2), "body 2")])?;
    let joints = Joints::new(vec![joint(JointId::new(1), "joint_1", BodyId::new(1), BodyId::new(2))])?;

    let model = Model::new(bodies, joints);

    assert!(matches!(model, Err(ModelBuildError::MissingGround)));

    Ok(())
}

#[test]
fn rejects_duplicate_joint_id() -> Result<(), ModelBuildError> {
    let joints = Joints::new(vec![
        joint(JointId::new(1), "joint_1", BodyId::new(0), BodyId::new(1)),
        joint(JointId::new(1), "joint_1", BodyId::new(1), BodyId::new(2)),
    ]);

    assert!(matches!(joints, Err(ModelBuildError::DuplicateJointId(id)) if id == JointId::new(1)));

    Ok(())
}

#[test]
fn rejects_duplicate_body_id() -> Result<(), ModelBuildError> {
    let bodies = Bodies::new(vec![
        body(BodyId::ground(), "ground"),
        body(BodyId::new(1), "body 1"),
        body(BodyId::new(1), "body 1"),
    ]);

    assert!(matches!(bodies, Err(ModelBuildError::DuplicateBodyId(id)) if id == BodyId::new(1)));

    Ok(())
}

#[test]
fn accepts_ground_only_model() -> Result<(), ModelBuildError> {
    let bodies = Bodies::new(vec![body(BodyId::ground(), "ground")])?;
    let joints = Joints::new(vec![])?;

    assert!(Model::new(bodies, joints).is_ok());

    Ok(())
}

#[test]
fn rejects_non_ground_body_without_joints() -> Result<(), ModelBuildError> {
    let bodies = Bodies::new(vec![body(BodyId::ground(), "ground"), body(BodyId::new(1), "free body")])?;
    let joints = Joints::new(vec![])?;

    let model = Model::new(bodies, joints);

    assert!(matches!(model, Err(ModelBuildError::FreeBody(id)) if id == BodyId::new(1)));

    Ok(())
}

#[test]
fn rejects_self_connecting_joint() -> Result<(), ModelBuildError> {
    let bodies = Bodies::new(vec![body(BodyId::ground(), "ground"), body(BodyId::new(1), "body")])?;
    let joints = Joints::new(vec![joint(JointId::new(1), "joint_1", BodyId::new(1), BodyId::new(1))])?;

    let model = Model::new(bodies, joints);

    assert!(matches!(
        model,
        Err(ModelBuildError::SelfConnectingJoint { joint_id, body_id })
            if joint_id == JointId::new(1) && body_id == BodyId::new(1)
    ));

    Ok(())
}

#[test]
fn joint_reference_errors_come_before_a_missing_ground() -> Result<(), ModelBuildError> {
    let bodies = Bodies::new(vec![body(BodyId::new(1), "body 1")])?;
    let joints = Joints::new(vec![joint(JointId::new(4), "joint_4", BodyId::new(1), BodyId::new(7))])?;

    let model = Model::new(bodies, joints);

    assert!(matches!(
        model,
        Err(ModelBuildError::InvalidJointReference { joint_id, body_id })
            if joint_id == JointId::new(4) && body_id == BodyId::new(7)
    ));

    Ok(())
}

#[test]
fn bodies_and_joints_are_found_by_identifier() -> Result<(), ModelBuildError> {
    let bodies = Bodies::new(vec![body(BodyId::ground(), "ground"), body(BodyId::new(5), "five")])?;
    let joints = Joints::new(vec![joint(JointId::new(3), "three", BodyId::new(0), BodyId::new(5))])?;

    assert_eq!(bodies.len(), 2);
    assert_eq!(bodies.index_of(BodyId::new(5)), Some(1));
    assert_eq!(bodies.get(BodyId::new(5)).map(|b| b.name()), Some("five"));
    assert!(bodies.get(BodyId::new(6)).is_none());
    assert!(!bodies.contains(BodyId::new(6)));
    assert_eq!(bodies.at(0).id(), BodyId::new(0));
    assert_eq!(joints.len(), 1);
    assert_eq!(joints.get(JointId::new(3)).map(|j| j.name()), Some("three"));
    assert!(joints.contains(JointId::new(3)));
    assert_eq!(joints.index_of(JointId::new(4)), None);
    assert_eq!(joints.at(0).id(), JointId::new(3));

    Ok(())
}

#[test]
fn input_keeps_model_and_motions() -> Result<(), ModelBuildError> {
    let bodies = Bodies::new(vec![body(BodyId::ground(), "ground"), body(BodyId::new(1), "body")])?;
    let joints = Joints::new(vec![joint(JointId::new(1), "joint_1", BodyId::new(0), BodyId::new(1))])?;
    let model = Model::new(bodies, joints)?;
    let motion = Motion::new("rotate", MotionKind::JointCoordinates, JointId::new(1));

    let input = Input::new(model, vec![motion]);

    assert_eq!(input.model().bodies().len(), 2);
    assert_eq!(input.motions().len(), 1);
    assert_eq!(input.motions()[0].name(), "rotate");
    assert_eq!(input.motions()[0].kind(), MotionKind::JointCoordinates);
    assert_eq!(input.motions()[0].joint_id(), JointId::new(1));

    Ok(())
}

#[test]
fn sides_have_labels() {
    assert_eq!(Side::Left.label(), "left");
    assert_eq!(Side::Right.label(), "right");
    assert_eq!(Side::Single.label(), "single");
    assert_eq!(Side::Left.label_short(), "l");
    assert_eq!(Side::Right.label_short(), "r");
    assert_eq!(Side::Single.label_short(), "s");
}

#[test]
fn joint_keys_order_by_topology_then_identifier() {
    let table_ground = TableBodyId::ground();
    assert_eq!(table_ground, TableBodyId(0));

    let primary = JointKey { topology: JointTopology::Primary, id: kinemagic::model::joints::JointId(7) };
    let secondary = JointKey { topology: JointTopology::Secondary, id: kinemagic::model::joints::JointId(1) };
    assert!(primary < secondary);
}

#[test]
fn identifiers_order_by_their_numbers() {
    assert!(BodyId::new(2) < BodyId::new(10));
    assert_eq!(BodyId::new(3).partial_cmp(&BodyId::new(3)), Some(std::cmp::Ordering::Equal));
    assert!(JointId::new(11) > JointId::new(9));
    let mut ids = vec![BodyId::new(30), BodyId::new(4), BodyId::new(12)];
    ids.sort();
    assert_eq!(ids, vec![BodyId::new(4), BodyId::new(12), BodyId::new(30)]);
}
