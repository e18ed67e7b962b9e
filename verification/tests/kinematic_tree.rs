use kinemagic::kinematics::KinematicsError;
use kinemagic::kinematics::tree::{KinematicTreeError, KinematicTreeStep, build_kinematic_tree};
use kinemagic::model::{Bodies, Body, BodyId, Joint, JointId, JointKind, JointRole, Joints, Marker, Model};

fn model(body_ids: &[u32], joints: Vec<Joint>) -> Model {
    let bodies = std::iter::once(BodyId::new(0))
        .chain(body_ids.iter().copied().map(BodyId::new))
        .map(|id| Body::new(id, &format!("body {id:?}")))
        .collect();

    Model::new(Bodies::new(bodies).unwrap(), Joints::new(joints).unwrap()).unwrap()
}

fn joint(id: u32, parent_id: u32, child_id: u32) -> Joint {
    Joint::new(
        JointId::new(id),
        &format!("joint {id}"),
        JointKind::Spherical,
        JointRole::Auto,
        Marker::new("i", BodyId::new(parent_id)),
        Marker::new("j", BodyId::new(child_id)),
    )
}

fn step(parent_id: u32, child_id: u32, joint_id: u32) -> KinematicTreeStep {
    KinematicTreeStep {
        parent_id: BodyId::new(parent_id),
        child_id: BodyId::new(child_id),
        joint_id: JointId::new(joint_id),
    }
}

#[test]
fn builds_ground_only_tree() {
    let model = model(&[], vec![]);

    let tree = build_kinematic_tree(&model).unwrap();

    assert!(tree.steps().is_empty());
}

#[test]
fn builds_one_body_tree() {
    let model = model(&[1], vec![joint(1, 0, 1)]);

    let tree = build_kinematic_tree(&model).unwrap();

    assert_eq!(tree.steps(), &[step(0, 1, 1)]);
}

#[test]
fn builds_chain_in_topology_order() {
    let model = model(&[2, 1], vec![joint(1, 1, 2), joint(9, 0, 1)]);

    let tree = build_kinematic_tree(&model).unwrap();

    assert_eq!(tree.steps(), &[step(0, 1, 9), step(1, 2, 1)]);
}

#[test]
fn builds_branch_in_deterministic_breadth_first_order() {
    let model = model(&[3, 2, 1], vec![joint(1, 1, 3), joint(9, 0, 2), joint(8, 0, 1)]);

    let tree = build_kinematic_tree(&model).unwrap();

    assert_eq!(tree.steps(), &[step(0, 1, 8), step(0, 2, 9), step(1, 3, 1)]);
}

#[test]
fn rejects_ground_as_child() {
    let model = model(&[1], vec![joint(1, 1, 0)]);

    let error = build_kinematic_tree(&model).unwrap_err();

    assert!(matches!(
        error,
        KinematicTreeError::GroundAsChild { parent_id, joint_id }
            if parent_id == BodyId::new(1) && joint_id == JointId::new(1)
    ));
}

#[test]
fn rejects_duplicate_parent() {
    let model = model(&[1], vec![joint(1, 0, 1), joint(2, 0, 1)]);

    let error = build_kinematic_tree(&model).unwrap_err();

    assert!(matches!(
        error,
        KinematicTreeError::DuplicateParent { body_id, first_joint_id, second_joint_id }
            if body_id == BodyId::new(1)
                && first_joint_id == JointId::new(1)
                && second_joint_id == JointId::new(2)
    ));
}

#[test]
fn rejects_directed_cycle() {
    let model = model(&[1, 2], vec![joint(3, 0, 1), joint(2, 1, 2), joint(1, 2, 1)]);

    let error = build_kinematic_tree(&model).unwrap_err();

    assert!(matches!(
        error,
        KinematicTreeError::DuplicateParent { body_id, first_joint_id, second_joint_id }
            if body_id == BodyId::new(1)
                && first_joint_id == JointId::new(3)
                && second_joint_id == JointId::new(1)
    ));
}

#[test]
fn rejects_body_reached_only_against_joint_direction() {
    let first = model(&[1, 2], vec![joint(1, 0, 1), joint(2, 2, 1)]);

    let error = build_kinematic_tree(&first).unwrap_err();

    assert!(matches!(
        error,
        KinematicTreeError::DuplicateParent { body_id, first_joint_id, second_joint_id }
            if body_id == BodyId::new(1)
                && first_joint_id == JointId::new(1)
                && second_joint_id == JointId::new(2)
    ));

    let second = model(&[1, 2], vec![joint(1, 0, 1), joint(2, 1, 0), joint(3, 2, 1)]);
    let error = build_kinematic_tree(&second).unwrap_err();
    assert!(matches!(
        error,
        KinematicTreeError::GroundAsChild { parent_id, joint_id }
            if parent_id == BodyId::new(1) && joint_id == JointId::new(2)
    ));
}

#[test]
fn kinematics_errors_compare_by_value() {
    let missing = KinematicsError::MissingBody(kinemagic::model::bodies::BodyId(3));
    assert_eq!(missing, KinematicsError::MissingBody(kinemagic::model::bodies::BodyId(3)));
    assert_ne!(missing, KinematicsError::InvalidPrimaryTree);
}

#[test]
fn reordering_or_renaming_joints_keeps_the_steps() {
    let first = model(&[1, 2, 3], vec![joint(1, 0, 1), joint(2, 1, 2), joint(3, 0, 3)]);
    let renamed = |id: u32, parent_id: u32, child_id: u32| {
        Joint::new(
            JointId::new(id),
            &format!("renamed {id}"),
            JointKind::Spherical,
            JointRole::Auto,
            Marker::new("parent side", BodyId::new(parent_id)),
            Marker::new("child side", BodyId::new(child_id)),
        )
    };
    let second = model(&[1, 2, 3], vec![renamed(3, 0, 3), renamed(2, 1, 2), renamed(1, 0, 1)]);

    let a = build_kinematic_tree(&first).unwrap();
    let b = build_kinematic_tree(&second).unwrap();

    assert_eq!(a.steps(), b.steps());
    assert_eq!(a.steps(), &[step(0, 1, 1), step(0, 3, 3), step(1, 2, 2)]);
}
