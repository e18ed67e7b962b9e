use kinemagic::cli::check::{self, CheckOutcome, LoadError, RunError};
use kinemagic::cli::solve::{self, render_progress_header, reports_progress_at};
use kinemagic::cli::{CheckArgs, Cli, CliErrorKind, Commands, SolveArgs, SolveViewMode};
use kinemagic::io::yaml::{
    YamlBody, YamlError, YamlInput, YamlJoint, YamlJointDisplacement, YamlJointKind, YamlJointRole, YamlMarker, YamlMotion,
    YamlPosition, YamlSide,
};
use kinemagic::model::JointId;
use kinemagic::problem::PrepareError;
use kinemagic::problem::coordinates::JointCoordinateError;

#[test]
fn parses_check_command() {
    let cli = Cli::try_parse_from(&["km", "check", "model.yaml"]).unwrap();

    assert!(matches!(cli.command, Commands::Check(_)));
}

#[test]
fn parses_check_view_command() {
    let cli = Cli::try_parse_from(&["km", "check", "model.yaml", "--view"]).unwrap();

    assert!(matches!(cli.command, Commands::Check(CheckArgs { view: true, .. })));
}

#[test]
fn parses_solve_command() {
    let cli = Cli::try_parse_from(&["km", "solve", "model.yaml"]).unwrap();

    assert!(matches!(cli.command, Commands::Solve(_)));
}

#[test]
fn parses_solve_view_command() {
    let cli = Cli::try_parse_from(&["km", "solve", "model.yaml", "--view"]).unwrap();

    assert!(matches!(
        cli.command,
        Commands::Solve(SolveArgs { view: Some(SolveViewMode::After), .. })
    ));
}

#[test]
fn parses_solve_live_view_command() {
    let cli = Cli::try_parse_from(&["km", "solve", "model.yaml", "--view=live"]).unwrap();

    assert!(matches!(
        cli.command,
        Commands::Solve(SolveArgs { view: Some(SolveViewMode::Live), .. })
    ));
}

#[test]
fn parses_bare_view_before_input() {
    let cli = Cli::try_parse_from(&["km", "solve", "--view", "model.yaml"]).unwrap();

    assert!(matches!(
        cli.command,
        Commands::Solve(SolveArgs { view: Some(SolveViewMode::After), .. })
    ));
}

#[test]
fn rejects_solve_view_with_progress() {
    assert!(Cli::try_parse_from(&["km", "solve", "model.yaml", "--view", "--progress"]).is_err());
}

#[test]
fn rejects_missing_subcommand() {
    assert!(Cli::try_parse_from(&["km"]).is_err());
}

#[test]
fn rejects_missing_input() {
    assert!(Cli::try_parse_from(&["km", "check"]).is_err());
}

#[test]
fn rejects_unknown_command() {
    assert!(Cli::try_parse_from(&["km", "unknown", "model.yaml"]).is_err());
}

#[test]
fn names_what_is_wrong_with_a_command_line() {
    let kind = |args: &[&str]| Cli::try_parse_from(args).unwrap_err().kind;

    assert_eq!(kind(&["km"]), CliErrorKind::MissingSubcommand);
    assert_eq!(kind(&["km", "unknown", "model.yaml"]), CliErrorKind::UnknownSubcommand);
    assert_eq!(kind(&["km", "check"]), CliErrorKind::MissingInput);
    assert_eq!(kind(&["km", "solve", "a.yaml", "--view", "--progress"]), CliErrorKind::ArgumentConflict);
    assert_eq!(kind(&["km", "solve", "a.yaml", "--view=sideways"]), CliErrorKind::InvalidValue);
    assert_eq!(kind(&["km", "solve", "a.yaml", "--view", "live"]), CliErrorKind::UnexpectedArgument);
    assert_eq!(kind(&["km", "check", "a.yaml", "--view", "--view"]), CliErrorKind::RepeatedArgument);
    assert_eq!(kind(&["km", "check", "a.yaml", "--view=yes"]), CliErrorKind::UnexpectedValue);
    assert_eq!(kind(&["km", "check", "a.yaml", "--frobnicate"]), CliErrorKind::UnexpectedArgument);
    assert_eq!(kind(&["km", "check", "a.yaml", "b.yaml"]), CliErrorKind::UnexpectedArgument);
    assert_eq!(kind(&["km", "--help"]), CliErrorKind::HelpRequested);
    assert_eq!(kind(&["km", "check", "-h"]), CliErrorKind::HelpRequested);
    assert_eq!(kind(&["km", "--version"]), CliErrorKind::VersionRequested);

    let error = Cli::try_parse_from(&["km", "solve", "a.yaml", "--view=sideways"]).unwrap_err();
    assert_eq!(error.argument, "sideways");
}

#[test]
fn rejects_an_empty_input_path() {
    let kind = |args: &[&str]| Cli::try_parse_from(args).unwrap_err().kind;

    assert_eq!(kind(&["km", "check", ""]), CliErrorKind::InvalidValue);
    assert_eq!(kind(&["km", "solve", "--progress", ""]), CliErrorKind::InvalidValue);
    assert_eq!(kind(&["km", "check", "--", ""]), CliErrorKind::InvalidValue);
    assert_eq!(kind(&["km", "check", "a.yaml", ""]), CliErrorKind::UnexpectedArgument);
}

#[test]
fn takes_arguments_after_double_dash_as_input() {
    let cli = Cli::try_parse_from(&["km", "check", "--", "--view"]).unwrap();

    assert_eq!(cli.command, Commands::Check(CheckArgs { input: "--view".to_owned(), view: false }));

    let cli = Cli::try_parse_from(&["km", "solve", "--progress", "m.yaml"]).unwrap();
    assert_eq!(
        cli.command,
        Commands::Solve(SolveArgs { input: "m.yaml".to_owned(), progress: true, view: None })
    );
}

fn hardpoint(name: &str) -> YamlPosition {
    YamlPosition::Hardpoint(name.to_owned())
}

fn body(body_id: u32, points: &[&str]) -> YamlBody {
    YamlBody {
        body_id,
        side: YamlSide::Single,
        position: YamlPosition::Coordinates,
        points_on_body: points.iter().map(|p| p.to_string()).collect(),
    }
}

fn joint(joint_id: u32, i: (u32, &str), j: (u32, &str)) -> YamlJoint {
    YamlJoint {
        joint_id,
        kind: YamlJointKind::Spherical,
        role: YamlJointRole::Auto,
        i: YamlMarker { body_id: i.0, position: hardpoint(i.1) },
        j: YamlMarker { body_id: j.0, position: hardpoint(j.1) },
    }
}

/// One body on a spherical joint to ground, without motions.
fn one_body_document() -> YamlInput {
    YamlInput {
        hardpoints: vec!["P1".to_owned()],
        bodies: vec![("B1".to_owned(), body(1, &["P1"]))],
        joints: vec![("J1".to_owned(), joint(1, (0, "P1"), (1, "P1")))],
        motions: vec![],
    }
}

/// A chain of two bodies with a motion on each joint.
fn two_body_motion_document() -> YamlInput {
    YamlInput {
        hardpoints: vec!["P0".to_owned(), "P1".to_owned(), "P2".to_owned()],
        bodies: vec![("B1".to_owned(), body(1, &["P0", "P1"])), ("B2".to_owned(), body(2, &["P1", "P2"]))],
        joints: vec![
            ("J1".to_owned(), joint(1, (0, "P0"), (1, "P0"))),
            ("J2".to_owned(), joint(2, (1, "P1"), (2, "P1"))),
        ],
        motions: vec![
            ("RotateJ1".to_owned(), YamlMotion { joint_id: 1, displacement: vec![YamlJointDisplacement::RotZ] }),
            ("RotateJ2".to_owned(), YamlMotion { joint_id: 2, displacement: vec![YamlJointDisplacement::RotZ] }),
        ],
    }
}

/// One body moved by a motion on its joint to ground.
fn one_body_motion_document() -> YamlInput {
    let mut document = one_body_document();
    document.motions.push(("RotateJ1".to_owned(), YamlMotion { joint_id: 1, displacement: vec![YamlJointDisplacement::RotZ] }));
    document
}

/// Two bodies between two ground hardpoints: the loop is closed by a joint.
fn closed_loop_document() -> YamlInput {
    YamlInput {
        hardpoints: vec!["A".to_owned(), "B".to_owned(), "C".to_owned(), "D".to_owned()],
        bodies: vec![("Coupler".to_owned(), body(2, &["B", "C"])), ("Crank".to_owned(), body(1, &["A", "B"]))],
        joints: vec![
            ("J1".to_owned(), joint(1, (0, "A"), (1, "A"))),
            ("J2".to_owned(), joint(2, (1, "B"), (2, "B"))),
            ("J3".to_owned(), joint(3, (2, "C"), (0, "C"))),
        ],
        motions: vec![("RotateCrank".to_owned(), YamlMotion { joint_id: 1, displacement: vec![YamlJointDisplacement::RotZ] })],
    }
}

/// Two motions on one joint.
fn duplicate_motion_document() -> YamlInput {
    let mut document = one_body_document();
    document.motions.push(("First".to_owned(), YamlMotion { joint_id: 1, displacement: vec![YamlJointDisplacement::RotZ] }));
    document.motions.push(("Second".to_owned(), YamlMotion { joint_id: 1, displacement: vec![YamlJointDisplacement::RotZ] }));
    document
}

fn check_args(input: &str) -> CheckArgs {
    CheckArgs { input: input.to_owned(), view: false }
}

#[test]
fn check_fails_for_missing_file() {
    let result = check::run(
        check_args("missing.yaml"),
        Err(LoadError::Read("No such file or directory".to_owned())),
    );

    assert!(result.is_err());
    assert!(matches!(result, Err(RunError::Load { path, .. }) if path == "missing.yaml"));
}

#[test]
fn solve_fails_for_missing_file() {
    let result = solve::run(
        SolveArgs { input: "missing.yaml".to_owned(), progress: false, view: None },
        Err(LoadError::Read("No such file or directory".to_owned())),
    );

    assert!(result.is_err());
}

#[test]
fn check_accepts_valid_no_motion_file() {
    let result = check::run(check_args("spherical_one_body_parse.yaml"), Ok(one_body_document()));

    assert!(result.is_ok());
    assert!(matches!(result, Ok(CheckOutcome::Valid(_, line)) if line == "valid: spherical_one_body_parse.yaml"));
}

#[test]
fn check_accepts_valid_motion_file() {
    let result = check::run(check_args("spherical_two_body_motion.yaml"), Ok(two_body_motion_document()));

    assert!(result.is_ok());
}

#[test]
fn check_rejects_malformed_yaml() {
    let result = check::run(
        check_args("malformed.yaml"),
        Err(LoadError::Parse("did not find expected node content".to_owned())),
    );

    assert!(result.is_err());
}

#[test]
fn check_rejects_not_solve_ready_model() {
    let result = check::run(check_args("spherical_duplicate_motion.yaml"), Ok(duplicate_motion_document()));

    assert!(result.is_err());
    assert!(matches!(
        result,
        Err(RunError::Prepare {
            source: PrepareError::Coordinates(JointCoordinateError::DuplicateMotion { joint_id, .. }),
            ..
        }) if joint_id == JointId::new(1)
    ));
}

#[test]
fn check_accepts_valid_no_motion_problem() {
    let result = check::run(check_args("spherical_one_body_parse.yaml"), Ok(one_body_document()));

    assert!(result.is_ok());
}

#[test]
fn check_accepts_valid_motion_problem() {
    let result = check::run(check_args("spherical_two_body_motion.yaml"), Ok(two_body_motion_document()));

    assert!(result.is_ok());
}

#[test]
fn check_accepts_valid_example_motion_problem() {
    let result = check::run(check_args("spherical_one_body_motion.yaml"), Ok(one_body_motion_document()));

    assert!(result.is_ok());
}

#[test]
fn check_accepts_valid_closed_loop_problem() {
    let result = check::run(check_args("spherical_closed_loop.yaml"), Ok(closed_loop_document()));

    assert!(result.is_ok());
    match solve::run(
        SolveArgs { input: "spherical_closed_loop.yaml".to_owned(), progress: true, view: None },
        Ok(closed_loop_document()),
    ) {
        Ok(plan) => {
            assert!(plan.progress);
            assert_eq!(plan.problem.closure_joint_ids(), &[JointId::new(3)]);
            assert_eq!(plan.problem.tree_edges().len(), 2);
        },
        Err(error) => panic!("{error:?}"),
    }
}

#[test]
fn check_with_view_hands_the_problem_to_the_viewer() {
    let result = check::run(
        CheckArgs { input: "spherical_one_body_parse.yaml".to_owned(), view: true },
        Ok(one_body_document()),
    );

    assert!(matches!(result, Ok(CheckOutcome::View(_))));
}

#[test]
fn check_names_the_file_of_a_conversion_error() {
    let mut document = one_body_document();
    document.joints[0].1.j.body_id = 7;

    let result = check::run(check_args("broken.yaml"), Ok(document));

    assert!(matches!(
        result,
        Err(RunError::Convert { path, source: YamlError::UnknownJointBody { name, body_id } })
            if path == "broken.yaml" && name == "J1:j" && body_id == 7
    ));
}

#[test]
fn renders_progress_header() {
    assert_eq!(
        render_progress_header(),
        "\nCurrent Step Current Time    Progress (%)\n------------ -------------   ------------\n"
    );
}

#[test]
fn reports_progress_at_first_every_twentieth_and_last_frame() {
    let reported = (0..45).filter(|&i| reports_progress_at(i, 45)).collect::<Vec<_>>();

    assert_eq!(reported, vec![0, 19, 39, 44]);
    assert!(reports_progress_at(0, 1));
}
