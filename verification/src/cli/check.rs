//! What `km check` does with the document it was given.
use vstd::prelude::*;

use crate::cli::CheckArgs;
use crate::io::yaml::{YamlError, YamlInput, into_input_matches};
use crate::model::Input;
use crate::problem::{PrepareError, PreparedProblem, prepare, prepare_matches};
use crate::text::suffixed;

verus! {

/// Why the document of a command could not be taken in.
#[derive(Debug, PartialEq, Eq)]
pub enum LoadError {
    /// The file could not be read; the message says why.
    Read(String),
    /// The file is not a document of the input format; the message says why.
    Parse(String),
}

/// Why a command failed, with the path of its input file.
#[derive(Debug, PartialEq, Eq)]
pub enum RunError {
    Load { path: String, source: LoadError },
    Convert { path: String, source: YamlError },
    Prepare { path: String, source: PrepareError },
}

/// What `km check` ends with: the viewer on the prepared problem, or the
/// line that reports the file valid.
pub enum CheckOutcome {
    View(PreparedProblem),
    Valid(PreparedProblem, String),
}

/// What loading the document at `path` and preparing its input gives.
pub open spec fn load_matches(
    path: String,
    document: Result<YamlInput, LoadError>,
    result: Result<PreparedProblem, RunError>,
) -> bool {
    match document {
        Err(e) => result == Err::<PreparedProblem, RunError>(RunError::Load { path, source: e }),
        Ok(yaml) => match result {
            Err(RunError::Load { .. }) => false,
            Err(RunError::Convert { path: p, source }) => p == path && into_input_matches(yaml, Err(source)),
            Err(RunError::Prepare { path: p, source }) => p == path && exists|input: Input|
                into_input_matches(yaml, Ok(input)) && #[trigger] prepare_matches(input, Err(source)),
            Ok(problem) => into_input_matches(yaml, Ok(problem.spec_input())) && prepare_matches(
                problem.spec_input(),
                Ok(problem),
            ),
        },
    }
}

/// Converts the loaded document and prepares its input, naming the file in
/// any error.
pub fn load_and_prepare(path: &String, document: Result<YamlInput, LoadError>) -> (result: Result<
    PreparedProblem,
    RunError,
>)
    ensures
        load_matches(*path, document, result),
{
    let yaml = match document {
        Ok(yaml) => yaml,
        Err(e) => {
            return Err(RunError::Load { path: path.clone(), source: e });
        },
    };
    let ghost doc = yaml;
    let input = match yaml.into_input() {
        Ok(input) => input,
        Err(e) => {
            return Err(RunError::Convert { path: path.clone(), source: e });
        },
    };
    let ghost converted = input;
    let prepared = prepare(input);
    assert(document == Ok::<YamlInput, LoadError>(doc));
    assert(into_input_matches(doc, Ok(converted)));
    assert(prepare_matches(converted, prepared));
    match prepared {
        Ok(problem) => {
            assert(prepare_matches(converted, Ok(problem)));
            Ok(problem)
        },
        Err(e) => {
            Err(RunError::Prepare { path: path.clone(), source: e })
        },
    }
}

/// Checks the document of `km check`: on success, views the reference
/// geometry when asked to, and otherwise reports the file valid.
pub fn run(args: CheckArgs, document: Result<YamlInput, LoadError>) -> (result: Result<CheckOutcome, RunError>)
    ensures
        exists|prepared: Result<PreparedProblem, RunError>|
            #[trigger] load_matches(args.input, document, prepared) && match prepared {
                Err(e) => result == Err::<CheckOutcome, RunError>(e),
                Ok(problem) => if args.view {
                    result == Ok::<CheckOutcome, RunError>(CheckOutcome::View(problem))
                } else {
                    result matches Ok(CheckOutcome::Valid(p, line)) && p == problem && line@ == "valid: "@
                        + args.input@
                },
            },
{
    let prepared = load_and_prepare(&args.input, document);
    let ghost p = prepared;
    match prepared {
        Err(e) => Err(e),
        Ok(problem) => if args.view {
            Ok(CheckOutcome::View(problem))
        } else {
            let line = suffixed("valid: ", args.input.as_str());
            Ok(CheckOutcome::Valid(problem, line))
        },
    }
}

} // verus!
