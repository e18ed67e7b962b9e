use kinemagic::model::{
    Bodies, Body, BodyId, Input, Joint, JointId, JointKind, JointRole, Joints, Marker, Model, Motion,
    MotionKind,
};
use kinemagic::problem::coordinates::{JointCoordinateError, resolve_joint_coordinates};
use kinemagic::problem::tree::{
    KinematicTopology, KinematicTopologyError, TraversalDirection, build_kinematic_topology,
};
use kinemagic::problem::{PrepareError, prepare};

fn model(body_ids: &[u32], joints: Vec<Joint>) -> Model {
    let bodies = std::iter::once(BodyId::new(0))
        .chain(body_ids.iter().copied().map(BodyId::new))
        .map(|id| Body::new(id, &format!("body {id:?}")))
        .collect();

    Model::new(Bodies::new(bodies).unwrap(), Joints::new(joints).unwrap()).unwrap()
}

fn joint(id: u32, i_body_id: u32, j_body_id: u32) -> Joint {
    joint_with_role(id, i_body_id, j_body_id, JointRole::Auto)
}

fn joint_with_role(id: u32, i_body_id: u32, j_body_id: u32, role: JointRole) -> Joint {
    Joint::new(
        JointId::new(id),
        &format!("joint {id}"),
        JointKind::Spherical,
        role,
        Marker::new("i", BodyId::new(i_body_id)),
        Marker::new("j", BodyId::new(j_body_id)),
    )
}

type Edge = (BodyId, BodyId, JointId, TraversalDirection);

fn tree_edge(parent: u32, child: u32, joint_id: u32, direction: TraversalDirection) -> Edge {
    (BodyId::new(parent), BodyId::new(child), JointId::new(joint_id), direction)
}

fn edges(topology: &KinematicTopology) -> Vec<Edge> {
    topology
        .tree_edges()
        .iter()
        .map(|e| (e.parent_body_id(), e.child_body_id(), e.joint_id(), e.direction()))
        .collect()
}

#[test]
fn builds_ground_only_topology() {
    let model = model(&[], vec![]);

    let topology = build_kinematic_topology(&model).unwrap();

    assert!(topology.tree_edges().is_empty());
    assert!(topology.closure_joint_ids().is_empty());
}

#[test]
fn builds_single_tree_edge() {
    let model = model(&[1], vec![joint(1, 0, 1)]);

    let topology = build_kinematic_topology(&model).unwrap();

    assert_eq!(edges(&topology), vec![tree_edge(0, 1, 1, TraversalDirection::IToJ)]);
    assert!(topology.closure_joint_ids().is_empty());
}

#[test]
fn orients_tree_edge_from_ground() {
    let model = model(&[1], vec![joint(1, 1, 0)]);

    let topology = build_kinematic_topology(&model).unwrap();

    assert_eq!(edges(&topology), vec![tree_edge(0, 1, 1, TraversalDirection::JToI)]);
}

#[test]
fn builds_open_chain_in_tree_order() {
    let model = model(&[1, 2], vec![joint(2, 1, 2), joint(1, 0, 1)]);

    let topology = build_kinematic_topology(&model).unwrap();

    assert_eq!(
        edges(&topology),
        vec![tree_edge(0, 1, 1, TraversalDirection::IToJ), tree_edge(1, 2, 2, TraversalDirection::IToJ)]
    );
}

#[test]
fn builds_branch_in_breadth_first_order() {
    let model = model(&[1, 2, 3], vec![joint(3, 1, 3), joint(2, 0, 2), joint(1, 0, 1)]);

    let topology = build_kinematic_topology(&model).unwrap();

    assert_eq!(
        edges(&topology),
        vec![
            tree_edge(0, 1, 1, TraversalDirection::IToJ),
            tree_edge(0, 2, 2, TraversalDirection::IToJ),
            tree_edge(1, 3, 3, TraversalDirection::IToJ),
        ]
    );
}

#[test]
fn represents_closed_loop_with_closure_joint() {
    let model = model(&[1], vec![joint(2, 1, 0), joint(1, 0, 1)]);

    let topology = build_kinematic_topology(&model).unwrap();

    assert_eq!(edges(&topology), vec![tree_edge(0, 1, 1, TraversalDirection::IToJ)]);
    assert_eq!(topology.closure_joint_ids(), &[JointId::new(2)]);
}

#[test]
fn primary_joint_is_preferred_over_auto_joint() {
    let model = model(
        &[1],
        vec![joint_with_role(1, 0, 1, JointRole::Auto), joint_with_role(2, 0, 1, JointRole::Primary)],
    );

    let topology = build_kinematic_topology(&model).unwrap();

    assert_eq!(edges(&topology), vec![tree_edge(0, 1, 2, TraversalDirection::IToJ)]);
    assert_eq!(topology.closure_joint_ids(), &[JointId::new(1)]);
}

#[test]
fn rejects_cycle_of_primary_joints() {
    let model = model(
        &[1, 2],
        vec![
            joint_with_role(1, 0, 1, JointRole::Primary),
            joint_with_role(2, 1, 2, JointRole::Primary),
            joint_with_role(3, 2, 0, JointRole::Primary),
        ],
    );

    let error = build_kinematic_topology(&model).unwrap_err();

    assert!(matches!(
        error,
        KinematicTopologyError::TreeJointCycle { joint_id } if joint_id == JointId::new(3)
    ));
}

#[test]
fn secondary_joint_becomes_closure_joint() {
    let model = model(
        &[1],
        vec![joint_with_role(1, 0, 1, JointRole::Primary), joint_with_role(2, 0, 1, JointRole::Secondary)],
    );

    let topology = build_kinematic_topology(&model).unwrap();

    assert_eq!(edges(&topology), vec![tree_edge(0, 1, 1, TraversalDirection::IToJ)]);
    assert_eq!(topology.closure_joint_ids(), &[JointId::new(2)]);
}

#[test]
fn rejects_tree_disconnected_by_secondary_joint() {
    let model = model(&[1], vec![joint_with_role(1, 0, 1, JointRole::Secondary)]);

    let error = build_kinematic_topology(&model).unwrap_err();

    assert!(matches!(
        error,
        KinematicTopologyError::UnreachableTreeBody { body_id } if body_id == BodyId::new(1)
    ));
}

#[test]
fn listing_order_of_joints_does_not_change_the_topology() {
    let forward = model(&[1, 2], vec![joint(1, 0, 1), joint(2, 1, 2), joint(3, 2, 0)]);
    let backward = model(&[1, 2], vec![joint(3, 2, 0), joint(2, 1, 2), joint(1, 0, 1)]);

    let forward = build_kinematic_topology(&forward).unwrap();
    let backward = build_kinematic_topology(&backward).unwrap();

    assert_eq!(edges(&forward), edges(&backward));
    assert_eq!(forward.closure_joint_ids(), backward.closure_joint_ids());
    assert_eq!(forward.closure_joint_ids(), &[JointId::new(3)]);
}

fn one_body_input(motions: Vec<Motion>) -> Input {
    Input::new(model(&[1], vec![joint(1, 0, 1)]), motions)
}

fn motion(name: &str, joint_id: u32) -> Motion {
    Motion::new(name, MotionKind::JointCoordinates, JointId::new(joint_id))
}

#[test]
fn rejects_unknown_joint() {
    let input = one_body_input(vec![motion("unknown", 99)]);

    let error = resolve_joint_coordinates(&input).unwrap_err();

    assert!(matches!(
        error,
        JointCoordinateError::UnknownJoint { motion_name, joint_id }
            if motion_name == "unknown" && joint_id == JointId::new(99)
    ));
}

#[test]
fn rejects_duplicate_motion() {
    let input = one_body_input(vec![motion("first", 1), motion("second", 1)]);

    let error = resolve_joint_coordinates(&input).unwrap_err();

    assert!(matches!(
        error,
        JointCoordinateError::DuplicateMotion { joint_id, first_motion, second_motion }
            if joint_id == JointId::new(1) && first_motion == "first" && second_motion == "second"
    ));
}

#[test]
fn derives_missing_reference_coordinate() {
    let input = one_body_input(vec![]);

    let coordinates = resolve_joint_coordinates(&input).unwrap();
    let coordinate = coordinates.get(JointId::new(1)).unwrap();

    assert_eq!(coordinate.joint_id(), JointId::new(1));
    assert_eq!(coordinate.motion_index(), None);
    assert!(coordinates.get(JointId::new(2)).is_none());
}

#[test]
fn uses_requested_coordinate() {
    let input = one_body_input(vec![motion("rotate", 1)]);

    let coordinates = resolve_joint_coordinates(&input).unwrap();

    assert_eq!(coordinates.get(JointId::new(1)).unwrap().motion_index(), Some(0));
}

#[test]
fn exposes_typed_preparation_errors() {
    let input = one_body_input(vec![motion("Unknown", 99)]);

    let error = match prepare(input) {
        Ok(_) => panic!("unknown motion joint should fail preparation"),
        Err(error) => error,
    };

    assert!(matches!(
        error,
        PrepareError::Coordinates(JointCoordinateError::UnknownJoint { motion_name, joint_id })
            if motion_name == "Unknown" && joint_id == JointId::new(99)
    ));
}

#[test]
fn topology_errors_come_before_motion_errors() {
    let input = Input::new(
        model(&[1], vec![joint_with_role(1, 0, 1, JointRole::Secondary)]),
        vec![motion("Unknown", 99)],
    );

    let error = match prepare(input) {
        Ok(_) => panic!("a tree without body 1 should fail preparation"),
        Err(error) => error,
    };

    assert!(matches!(
        error,
        PrepareError::Topology(KinematicTopologyError::UnreachableTreeBody { body_id })
            if body_id == BodyId::new(1)
    ));
}

#[test]
fn prepares_ordered_steps_with_resolved_coordinates() {
    let input = Input::new(
        model(&[1, 2], vec![joint(1, 0, 1), joint(2, 1, 2)]),
        vec![motion("RotateJ1", 1), motion("RotateJ2", 2)],
    );

    let problem = match prepare(input) {
        Ok(problem) => problem,
        Err(error) => panic!("preparation failed: {error:?}"),
    };

    assert_eq!(problem.model().bodies().iter().count(), 3);
    assert_eq!(problem.tree_edges().len(), 2);
    assert_eq!(problem.tree_edges()[0].parent_body_id(), BodyId::new(0));
    assert_eq!(problem.tree_edges()[0].child_body_id(), BodyId::new(1));
    assert_eq!(problem.tree_edges()[0].joint_id(), JointId::new(1));
    assert_eq!(problem.tree_edges()[0].direction(), TraversalDirection::IToJ);
    assert_eq!(problem.tree_edges()[0].joint_coordinate().motion_index(), Some(0));
    assert_eq!(problem.tree_edges()[1].parent_body_id(), BodyId::new(1));
    assert_eq!(problem.tree_edges()[1].child_body_id(), BodyId::new(2));
    assert_eq!(problem.tree_edges()[1].joint_id(), JointId::new(2));
    assert_eq!(problem.tree_edges()[1].joint_coordinate().motion_index(), Some(1));
    assert!(problem.closure_joint_ids().is_empty());
    assert_eq!(problem.joint_coordinate(JointId::new(2)).unwrap().joint_id(), JointId::new(2));
    assert!(problem.joint_coordinate(JointId::new(5)).is_none());
}

#[test]
fn spanning_tree_has_one_edge_fewer_than_bodies() {
    let model = model(
        &[1, 2, 3],
        vec![joint(1, 0, 1), joint(2, 1, 2), joint(3, 2, 3), joint(4, 3, 0), joint(5, 1, 3)],
    );

    let topology = build_kinematic_topology(&model).unwrap();

    assert_eq!(topology.tree_edges().len(), 3);
    assert_eq!(topology.closure_joint_ids().len(), 5 - 3);
}

#[test]
fn open_tree_has_no_closure_joints() {
    let model = model(&[1, 2, 3], vec![joint(1, 0, 1), joint(2, 1, 2), joint(3, 1, 3)]);

    let topology = build_kinematic_topology(&model).unwrap();

    assert_eq!(topology.tree_edges().len(), 3);
    assert!(topology.closure_joint_ids().is_empty());
}

#[test]
fn prepare_copies_the_topology_edge_for_edge() {
    let joints = || vec![joint(3, 2, 0), joint(1, 0, 1), joint(2, 1, 2), joint(4, 1, 3), joint(5, 3, 2)];
    let topology = build_kinematic_topology(&model(&[1, 2, 3], joints())).unwrap();
    let problem = prepare(Input::new(model(&[1, 2, 3], joints()), vec![motion("Spin", 4)])).unwrap();

    let prepared: Vec<Edge> = problem
        .tree_edges()
        .iter()
        .map(|e| (e.parent_body_id(), e.child_body_id(), e.joint_id(), e.direction()))
        .collect();
    assert_eq!(prepared, edges(&topology));
    assert_eq!(problem.closure_joint_ids(), topology.closure_joint_ids());
    for edge in problem.tree_edges() {
        assert_eq!(edge.joint_coordinate().joint_id(), edge.joint_id());
    }
}
