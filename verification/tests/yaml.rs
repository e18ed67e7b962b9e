use kinemagic::io::yaml::joints::{YamlJointKind as TableJointKind, YamlJointTopology};
use kinemagic::io::yaml::orientation::YamlAxis;
use kinemagic::io::yaml::side::YamlSide as TableSide;
use kinemagic::io::yaml::{
    YamlBody, YamlError, YamlInput, YamlJoint, YamlJointDisplacement, YamlJointKind, YamlJointRole, YamlMarker, YamlMotion,
    YamlPosition, YamlSide,
};
use kinemagic::kinematics::tree::build_kinematic_tree;
use kinemagic::model::joints::{JointKind as TableJointKind2, JointTopology};
use kinemagic::model::orientation::Axis;
use kinemagic::model::side::Side;
use kinemagic::model::{BodyId, JointId, JointKind, JointRole, ModelBuildError, MotionKind};

fn hardpoint(name: &str) -> YamlPosition {
    YamlPosition::Hardpoint(name.to_owned())
}

fn body(body_id: u32, position: YamlPosition, points: &[&str]) -> YamlBody {
    YamlBody {
        body_id,
        side: YamlSide::Single,
        position,
        points_on_body: points.iter().map(|p| p.to_string()).collect(),
    }
}

fn joint(joint_id: u32, role: YamlJointRole, i: (u32, YamlPosition), j: (u32, YamlPosition)) -> YamlJoint {
    YamlJoint {
        joint_id,
        kind: YamlJointKind::Spherical,
        role,
        i: YamlMarker { body_id: i.0, position: i.1 },
        j: YamlMarker { body_id: j.0, position: j.1 },
    }
}

/// One body hanging from ground at hardpoint P1.
fn one_body_parse() -> YamlInput {
    YamlInput {
        hardpoints: vec!["P1".to_owned()],
        bodies: vec![("B1".to_owned(), body(1, YamlPosition::Coordinates, &["P1"]))],
        joints: vec![(
            "J1".to_owned(),
            joint(1, YamlJointRole::Auto, (0, hardpoint("P1")), (1, hardpoint("P1"))),
        )],
        motions: vec![],
    }
}

/// Two bodies in a chain: ground - B1 at P1, B1 - B2 at P2.
fn two_body_parse(first: (&str, u32), second: (&str, u32)) -> YamlInput {
    let mut joints = vec![
        (
            first.0.to_owned(),
            joint(first.1, YamlJointRole::Auto, (0, hardpoint("P1")), (1, hardpoint("P1"))),
        ),
        (
            second.0.to_owned(),
            joint(second.1, YamlJointRole::Auto, (1, hardpoint("P2")), (2, hardpoint("P2"))),
        ),
    ];
    joints.sort_by(|a, b| a.0.cmp(&b.0));
    YamlInput {
        hardpoints: vec!["P1".to_owned(), "P2".to_owned()],
        bodies: vec![
            ("B1".to_owned(), body(1, YamlPosition::Coordinates, &["P1", "P2"])),
            ("B2".to_owned(), body(2, YamlPosition::Coordinates, &["P2"])),
        ],
        joints,
        motions: vec![],
    }
}

#[test]
fn converts_spherical_one_body_parse_into_model() -> Result<(), YamlError> {
    let input = one_body_parse().into_input()?;
    let model = input.model();

    assert_eq!(model.bodies().iter().count(), 2);
    assert_eq!(model.bodies().get(BodyId::new(0)).unwrap().name(), "ground");
    let body = model.bodies().get(BodyId::new(1)).unwrap();
    assert_eq!(body.name(), "B1");

    let joint = model.joints().iter().next().unwrap();
    assert_eq!(joint.id(), JointId::new(1));
    assert_eq!(joint.name(), "J1");
    assert_eq!(joint.kind(), JointKind::Spherical);
    assert_eq!(joint.i_marker().name(), "J1:i");
    assert_eq!(joint.i_marker().body_id(), BodyId::new(0));
    assert_eq!(joint.j_marker().name(), "J1:j");
    assert_eq!(joint.j_marker().body_id(), BodyId::new(1));

    Ok(())
}

#[test]
fn converts_spherical_two_body_parse_into_model() -> Result<(), YamlError> {
    let input = two_body_parse(("J1", 1), ("J2", 2)).into_input()?;
    let model = input.model();

    assert_eq!(model.bodies().iter().count(), 3);
    assert_eq!(model.joints().iter().count(), 2);
    assert_eq!(model.bodies().get(BodyId::new(0)).unwrap().name(), "ground");

    let mut joints = model.joints().iter();
    assert_eq!(joints.next().unwrap().id(), JointId::new(1));
    assert_eq!(joints.next().unwrap().id(), JointId::new(2));

    Ok(())
}

#[test]
fn converts_missing_motions_into_empty_input() -> Result<(), YamlError> {
    let input = one_body_parse().into_input()?;

    assert!(input.motions().is_empty());

    Ok(())
}

#[test]
fn rejects_explicit_empty_motion_displacement() {
    let mut document = one_body_parse();
    document.motions.push(("RotateJ1".to_owned(), YamlMotion { joint_id: 1, displacement: vec![] }));

    let result = document.into_input();

    assert!(matches!(
        result,
        Err(YamlError::EmptyMotionDisplacement { name }) if name == "RotateJ1"
    ));
}

#[test]
fn checks_one_motion_for_an_empty_displacement() {
    let empty = YamlMotion { joint_id: 1, displacement: vec![] };
    let full = YamlMotion { joint_id: 1, displacement: vec![YamlJointDisplacement::RotX] };

    assert_eq!(
        empty.validate("Spin"),
        Err(YamlError::EmptyMotionDisplacement { name: "Spin".to_owned() })
    );
    assert_eq!(full.validate("Spin"), Ok(()));
}

#[test]
fn converts_joint_coordinate_motion_into_input() -> Result<(), YamlError> {
    let mut document = one_body_parse();
    document.motions.push(("RotateJ1".to_owned(), YamlMotion { joint_id: 1, displacement: vec![YamlJointDisplacement::RotZ] }));

    let input = document.into_input()?;
    let motion = &input.motions()[0];

    assert_eq!(motion.name(), "RotateJ1");
    assert_eq!(motion.kind(), MotionKind::JointCoordinates);
    assert_eq!(motion.joint_id(), JointId::new(1));

    Ok(())
}

#[test]
fn converts_joint_roles() -> Result<(), YamlError> {
    let cases = [
        (YamlJointRole::default(), JointRole::Auto),
        (YamlJointRole::Auto, JointRole::Auto),
        (YamlJointRole::Primary, JointRole::Primary),
        (YamlJointRole::Secondary, JointRole::Secondary),
    ];

    for (role, expected) in cases {
        let mut document = one_body_parse();
        document.joints[0].1.role = role;
        let input = document.into_input()?;
        let actual = input.model().joints().iter().next().unwrap().role();

        assert_eq!(actual, expected);
        assert_eq!(role.into_joint_role(), expected);
    }

    Ok(())
}

#[test]
fn converts_inline_marker_position() -> Result<(), YamlError> {
    let mut document = one_body_parse();
    document.joints[0].1.i.position = YamlPosition::Coordinates;

    let input = document.into_input()?;

    assert_eq!(input.model().joints().iter().next().unwrap().i_marker().body_id(), BodyId::new(0));

    Ok(())
}

#[test]
fn rejects_explicit_ground_body() {
    let mut document = one_body_parse();
    document.bodies.push(("Ground".to_owned(), body(0, YamlPosition::Coordinates, &[])));

    let result = document.into_input();

    assert!(matches!(result, Err(YamlError::ExplicitGround { name }) if name == "Ground"));
}

#[test]
fn rejects_unknown_marker_hardpoint() {
    let mut document = one_body_parse();
    document.joints[0].1.i.position = hardpoint("missing");

    let result = document.into_input();

    assert!(matches!(
        result,
        Err(YamlError::UnknownMarkerHardpoint { name, point }) if name == "J1:i" && point == "missing"
    ));
}

#[test]
fn rejects_unknown_body_hardpoint() {
    let mut document = one_body_parse();
    document.bodies[0].1.points_on_body = vec!["missing".to_owned()];

    let result = document.into_input();

    assert!(matches!(
        result,
        Err(YamlError::UnknownHardpoint { name, point }) if name == "B1" && point == "missing"
    ));
}

#[test]
fn rejects_unknown_body_position_hardpoint() {
    let mut document = one_body_parse();
    document.bodies[0].1.position = hardpoint("nowhere");

    let result = document.into_input();

    assert!(matches!(
        result,
        Err(YamlError::UnknownHardpoint { name, point }) if name == "B1" && point == "nowhere"
    ));
}

#[test]
fn rejects_unknown_marker_body() {
    let mut document = one_body_parse();
    document.joints[0].1.i.body_id = 99;

    let result = document.into_input();

    assert!(matches!(
        result,
        Err(YamlError::UnknownJointBody { name, body_id }) if name == "J1:i" && body_id == 99
    ));
}

#[test]
fn reports_model_errors_of_the_document() {
    let mut document = one_body_parse();
    document.bodies.push(("B2".to_owned(), body(1, YamlPosition::Coordinates, &[])));
    assert!(matches!(
        document.into_input(),
        Err(YamlError::Model(ModelBuildError::DuplicateBodyId(id))) if id == BodyId::new(1)
    ));

    let mut document = one_body_parse();
    document.bodies.push(("B2".to_owned(), body(2, YamlPosition::Coordinates, &[])));
    assert!(matches!(
        document.into_input(),
        Err(YamlError::Model(ModelBuildError::FreeBody(id))) if id == BodyId::new(2)
    ));
}

#[test]
fn yaml_name_order_does_not_change_steps() {
    let root_first = two_body_parse(("ARoot", 9), ("ZChild", 1)).into_input().unwrap();
    let child_first = two_body_parse(("ZRoot", 9), ("AChild", 1)).into_input().unwrap();

    assert_eq!(
        build_kinematic_tree(root_first.model()).unwrap(),
        build_kinematic_tree(child_first.model()).unwrap()
    );
}

#[test]
fn yaml_name_order_does_not_change_prepared_steps() {
    let step_ids = |problem: &kinemagic::problem::PreparedProblem| {
        problem
            .tree_edges()
            .iter()
            .map(|step| (step.parent_body_id(), step.child_body_id(), step.joint_id()))
            .collect::<Vec<_>>()
    };
    let root_first = two_body_parse(("ARoot", 9), ("ZChild", 1)).into_input().unwrap();
    let child_first = two_body_parse(("ZRoot", 9), ("AChild", 1)).into_input().unwrap();
    let root_first = match kinemagic::problem::prepare(root_first) {
        Ok(problem) => problem,
        Err(error) => panic!("{error:?}"),
    };
    let child_first = match kinemagic::problem::prepare(child_first) {
        Ok(problem) => problem,
        Err(error) => panic!("{error:?}"),
    };

    assert_eq!(step_ids(&root_first), step_ids(&child_first));
}

#[test]
fn converts_input_enumerations() {
    assert_eq!(YamlJointKind::Spherical.into_joint_kind(), JointKind::Spherical);
    assert_eq!(Side::from(TableSide::Left), Side::Left);
    assert_eq!(Side::from(TableSide::Right), Side::Right);
    assert_eq!(Side::from(TableSide::Single), Side::Single);
    assert_eq!(Axis::from(YamlAxis::X), Axis::X);
    assert_eq!(Axis::from(YamlAxis::Y), Axis::Y);
    assert_eq!(Axis::from(YamlAxis::Z), Axis::Z);
    assert_eq!(TableJointKind2::from(TableJointKind::Revolute), TableJointKind2::Revolute);
    assert_eq!(TableJointKind2::from(TableJointKind::Inline), TableJointKind2::Inline);
    assert_eq!(JointTopology::from(YamlJointTopology::Primary), JointTopology::Primary);
    assert_eq!(JointTopology::from(YamlJointTopology::Secondary), JointTopology::Secondary);
}
