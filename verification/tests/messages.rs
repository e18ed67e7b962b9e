use kinemagic::io::yaml::YamlError;
use kinemagic::kinematics::tree::KinematicTreeError;
use kinemagic::model::{BodyId, JointId, ModelBuildError};
use kinemagic::problem::PrepareError;
use kinemagic::problem::coordinates::JointCoordinateError;
use kinemagic::problem::tree::KinematicTopologyError;
use kinemagic::view::SceneBuildError;
use kinemagic::view::terminal::ViewerError;

#[test]
fn body_id_text_is_its_number() {
    assert_eq!(BodyId::new(0).to_string(), "0");
    assert_eq!(BodyId::new(7).to_string(), "7");
    assert_eq!(BodyId::new(4_294_967_295).to_string(), u32::MAX.to_string());
    assert_eq!(BodyId::new(1205).to_string(), 1205.to_string());
}

#[test]
fn model_errors_name_the_identifiers() {
    let error = ModelBuildError::InvalidJointReference { joint_id: JointId::new(3), body_id: BodyId::new(12) };
    assert_eq!(error.message(), "joint `JointId(3)` references an invalid body ID `BodyId(12)`");
    assert_eq!(ModelBuildError::MissingGround.message(), "model does not contain ground body 0");
    assert_eq!(ModelBuildError::DuplicateBodyId(BodyId::new(1)).message(), "duplicate body ID `BodyId(1)`");
    assert_eq!(ModelBuildError::DuplicateJointId(JointId::new(40)).message(), "duplicate joint ID `JointId(40)`");
    assert_eq!(ModelBuildError::FreeBody(BodyId::new(2)).message(), "body `BodyId(2)` is not connected to ground");
    let error = ModelBuildError::SelfConnectingJoint { joint_id: JointId::new(5), body_id: BodyId::new(1) };
    assert_eq!(error.message(), "joint `JointId(5)` connects body `BodyId(1)` to itself");
}

#[test]
fn topology_and_tree_errors_name_the_identifiers() {
    assert_eq!(
        KinematicTopologyError::TreeJointCycle { joint_id: JointId::new(9) }.message(),
        "tree joint `JointId(9)` would create a cycle"
    );
    assert_eq!(
        KinematicTopologyError::UnreachableTreeBody { body_id: BodyId::new(4) }.message(),
        "body `BodyId(4)` is not reachable from ground through tree joints"
    );
    let error = KinematicTreeError::DuplicateParent {
        body_id: BodyId::new(2),
        first_joint_id: JointId::new(1),
        second_joint_id: JointId::new(10),
    };
    assert_eq!(error.message(), "body `BodyId(2)` has parent joints `JointId(1)` and `JointId(10)`");
    assert_eq!(
        KinematicTreeError::GroundAsChild { parent_id: BodyId::new(3), joint_id: JointId::new(2) }.message(),
        "joint `JointId(2)` makes ground a child of body `BodyId(3)`"
    );
}

#[test]
fn preparation_errors_carry_the_message_of_their_cause() {
    let error = PrepareError::Coordinates(JointCoordinateError::UnknownJoint {
        motion_name: "Unknown".to_owned(),
        joint_id: JointId::new(99),
    });
    assert_eq!(error.message(), "motion `Unknown` references unknown joint `JointId(99)`");
    let error = JointCoordinateError::DuplicateMotion {
        joint_id: JointId::new(1),
        first_motion: "A".to_owned(),
        second_motion: "B".to_owned(),
    };
    assert_eq!(error.message(), "joint `JointId(1)` has two motions: `A` and `B`");
}

#[test]
fn document_errors_name_what_is_wrong() {
    let error = YamlError::UnknownJointBody { name: "J1:i".to_owned(), body_id: 99 };
    assert_eq!(error.message(), "marker `J1:i` references unknown body '99`");
    let error = YamlError::EmptyMotionDisplacement { name: "RotateJ1".to_owned() };
    assert_eq!(error.message(), "motion `RotateJ1` has empty displacement: {}");
    let error = YamlError::Model(ModelBuildError::FreeBody(BodyId::new(2)));
    assert_eq!(error.message(), "body `BodyId(2)` is not connected to ground");
    let error = YamlError::ExplicitGround { name: "Ground".to_owned() };
    assert_eq!(error.message(), "body `Ground` uses reserved body ID 0; ground is implicit");
}

#[test]
fn viewer_errors_have_their_messages() {
    assert_eq!(
        SceneBuildError::MissingBodyPose { body_id: BodyId::new(3) }.message(),
        "solved poses do not contain body `3`"
    );
    assert_eq!(ViewerError::EmptyFrames.message(), "terminal viewer requires at least one frame");
    assert_eq!(ViewerError::Solve("no convergence".to_owned()).message(), "live solve failed: no convergence");
}
