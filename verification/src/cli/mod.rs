//! The command line of the `km` program.
//!
//! ```text
//! km check <INPUT> [--view]
//! km solve <INPUT> [--progress] [--view[=after|live]]
//! ```
//!
//! The first argument names the program and is skipped. The subcommand comes
//! next; `--help`, `-h` or `help` there ask for help and `--version` or `-V`
//! for the version. After the subcommand, options and the input file may come
//! in any order; `--` makes every later argument a positional one. A flag may
//! be given once. `--view` of `solve` takes its value after `=` only, and
//! means `after` without one; it cannot be combined with `--progress`.
//! The input file cannot be the empty path.
use vstd::prelude::*;

pub mod check;
pub mod solve;

verus! {

/// A parsed command line.
#[derive(Debug, PartialEq, Eq)]
pub struct Cli {
    pub command: Commands,
}

#[derive(Debug, PartialEq, Eq)]
pub enum Commands {
    /// Check the model.
    Check(CheckArgs),
    /// Solve the model.
    Solve(SolveArgs),
}

#[derive(Debug, PartialEq, Eq)]
pub struct CheckArgs {
    pub input: String,
    /// View the validated reference geometry in the terminal.
    pub view: bool,
}

#[derive(Debug, PartialEq, Eq)]
pub struct SolveArgs {
    pub input: String,
    /// Render solve progress to stderr.
    pub progress: bool,
    /// View the solved frames after solving, or stream them live.
    pub view: Option<SolveViewMode>,
}

#[derive(Clone, Copy, Debug, PartialEq, Eq, Structural)]
pub enum SolveViewMode {
    After,
    Live,
}

/// What is wrong with a command line.
#[derive(Clone, Copy, Debug, PartialEq, Eq, Structural)]
pub enum CliErrorKind {
    /// No subcommand was given.
    MissingSubcommand,
    /// The subcommand is not one of `check` and `solve`.
    UnknownSubcommand,
    /// An option that does not exist, or a second input file.
    UnexpectedArgument,
    /// A value given to a flag that takes none.
    UnexpectedValue,
    /// An option given twice.
    RepeatedArgument,
    /// A value that the option does not accept.
    InvalidValue,
    /// `--view` together with `--progress`.
    ArgumentConflict,
    /// No input file was given.
    MissingInput,
    /// Help was asked for.
    HelpRequested,
    /// The version was asked for.
    VersionRequested,
}

/// A rejected command line: what is wrong, and the argument or value at
/// fault (empty where no single one is).
#[derive(Debug, PartialEq, Eq)]
pub struct CliError {
    pub kind: CliErrorKind,
    pub argument: String,
}

/// A spec-level rejection: its kind and the argument at fault.
pub type Fault = (CliErrorKind, Seq<char>);

/// What scanning the arguments of `check` has found so far: whether `--`
/// was seen, the input file, and whether `--view` was given.
pub type CheckScan = (bool, Option<Seq<char>>, bool);

/// What scanning the arguments of `solve` has found so far: whether `--`
/// was seen, the input file, whether `--progress` was given, and the view.
pub type SolveScan = (bool, Option<Seq<char>>, bool, Option<SolveViewMode>);

/// `p` begins `t`.
pub open spec fn starts_with(t: Seq<char>, p: Seq<char>) -> bool {
    p.len() <= t.len() && t.subrange(0, p.len() as int) == p
}

/// `t` looks like an option: a dash followed by something.
pub open spec fn is_option(t: Seq<char>) -> bool {
    t.len() > 1 && t[0] == '-'
}

/// Takes `t` as the input file, unless one was given already; an empty
/// path is not a file name.
pub open spec fn take_input(input: Option<Seq<char>>, t: Seq<char>) -> Result<Option<Seq<char>>, Fault> {
    match input {
        Some(_) => Err((CliErrorKind::UnexpectedArgument, t)),
        None => if t.len() == 0 {
            Err((CliErrorKind::InvalidValue, t))
        } else {
            Ok(Some(t))
        },
    }
}

/// One argument of `check`.
pub open spec fn check_step(state: CheckScan, t: Seq<char>) -> Result<CheckScan, Fault> {
    let (escaped, input, view) = state;
    if escaped {
        match take_input(input, t) {
            Ok(i) => Ok((escaped, i, view)),
            Err(f) => Err(f),
        }
    } else if t == "--"@ {
        Ok((true, input, view))
    } else if t == "--help"@ || t == "-h"@ {
        Err((CliErrorKind::HelpRequested, Seq::empty()))
    } else if t == "--view"@ {
        if view {
            Err((CliErrorKind::RepeatedArgument, t))
        } else {
            Ok((escaped, input, true))
        }
    } else if starts_with(t, "--view="@) {
        Err((CliErrorKind::UnexpectedValue, t))
    } else if is_option(t) {
        Err((CliErrorKind::UnexpectedArgument, t))
    } else {
        match take_input(input, t) {
            Ok(i) => Ok((escaped, i, view)),
            Err(f) => Err(f),
        }
    }
}

/// One argument of `solve`.
pub open spec fn solve_step(state: SolveScan, t: Seq<char>) -> Result<SolveScan, Fault> {
    let (escaped, input, progress, view) = state;
    if escaped {
        match take_input(input, t) {
            Ok(i) => Ok((escaped, i, progress, view)),
            Err(f) => Err(f),
        }
    } else if t == "--"@ {
        Ok((true, input, progress, view))
    } else if t == "--help"@ || t == "-h"@ {
        Err((CliErrorKind::HelpRequested, Seq::empty()))
    } else if t == "--progress"@ {
        if progress {
            Err((CliErrorKind::RepeatedArgument, t))
        } else {
            Ok((escaped, input, true, view))
        }
    } else if starts_with(t, "--progress="@) {
        Err((CliErrorKind::UnexpectedValue, t))
    } else if t == "--view"@ || starts_with(t, "--view="@) {
        if view.is_some() {
            Err((CliErrorKind::RepeatedArgument, t))
        } else if t == "--view"@ {
            Ok((escaped, input, progress, Some(SolveViewMode::After)))
        } else {
            let value = t.subrange("--view="@.len() as int, t.len() as int);
            if value == "after"@ {
                Ok((escaped, input, progress, Some(SolveViewMode::After)))
            } else if value == "live"@ {
                Ok((escaped, input, progress, Some(SolveViewMode::Live)))
            } else {
                Err((CliErrorKind::InvalidValue, value))
            }
        }
    } else if is_option(t) {
        Err((CliErrorKind::UnexpectedArgument, t))
    } else {
        match take_input(input, t) {
            Ok(i) => Ok((escaped, i, progress, view)),
            Err(f) => Err(f),
        }
    }
}

/// The arguments of `check`, one after the other from `state`.
pub open spec fn scan_check(tokens: Seq<Seq<char>>, state: CheckScan) -> Result<CheckScan, Fault>
    decreases tokens.len(),
{
    if tokens.len() == 0 {
        Ok(state)
    } else {
        match check_step(state, tokens[0]) {
            Ok(next) => scan_check(tokens.drop_first(), next),
            Err(f) => Err(f),
        }
    }
}

/// The arguments of `solve`, one after the other from `state`.
pub open spec fn scan_solve(tokens: Seq<Seq<char>>, state: SolveScan) -> Result<SolveScan, Fault>
    decreases tokens.len(),
{
    if tokens.len() == 0 {
        Ok(state)
    } else {
        match solve_step(state, tokens[0]) {
            Ok(next) => scan_solve(tokens.drop_first(), next),
            Err(f) => Err(f),
        }
    }
}

/// `e` is the rejection `f`.
pub open spec fn error_is(e: CliError, f: Fault) -> bool {
    e.kind == f.0 && e.argument@ == f.1
}

/// `result` is what the grammar makes of `args`, the program name first.
pub open spec fn parse_matches(args: Seq<Seq<char>>, result: Result<Cli, CliError>) -> bool {
    if args.len() <= 1 {
        result matches Err(e) && error_is(e, (CliErrorKind::MissingSubcommand, Seq::empty()))
    } else {
        let first = args[1];
        let rest = args.skip(2);
        if first == "--help"@ || first == "-h"@ || first == "help"@ {
            result matches Err(e) && error_is(e, (CliErrorKind::HelpRequested, Seq::empty()))
        } else if first == "--version"@ || first == "-V"@ {
            result matches Err(e) && error_is(e, (CliErrorKind::VersionRequested, Seq::empty()))
        } else if first == "check"@ {
            match scan_check(rest, (false, None, false)) {
                Err(f) => result matches Err(e) && error_is(e, f),
                Ok((_, None, _)) => result matches Err(e) && error_is(e, (CliErrorKind::MissingInput, Seq::empty())),
                Ok((_, Some(input), view)) => result matches Ok(cli) && cli.command matches Commands::Check(a)
                    && a.input@ == input && a.view == view,
            }
        } else if first == "solve"@ {
            match scan_solve(rest, (false, None, false, None)) {
                Err(f) => result matches Err(e) && error_is(e, f),
                Ok((_, input, progress, view)) => if progress && view.is_some() {
                    result matches Err(e) && error_is(e, (CliErrorKind::ArgumentConflict, Seq::empty()))
                } else {
                    match input {
                        None => result matches Err(e) && error_is(e, (CliErrorKind::MissingInput, Seq::empty())),
                        Some(input) => result matches Ok(cli) && cli.command matches Commands::Solve(a)
                            && a.input@ == input && a.progress == progress && a.view == view,
                    }
                },
            }
        } else if is_option(first) {
            result matches Err(e) && error_is(e, (CliErrorKind::UnexpectedArgument, first))
        } else {
            result matches Err(e) && error_is(e, (CliErrorKind::UnknownSubcommand, first))
        }
    }
}

/// The views of a list of arguments.
pub open spec fn arg_views(args: Seq<&str>) -> Seq<Seq<char>> {
    args.map_values(|a: &str| a@)
}

/// `t` is the text `lit`.
fn is_text(t: &str, lit: &str) -> (same: bool)
    ensures
        same == (t@ == lit@),
{
    let a = t.to_owned();
    let b = lit.to_owned();
    a == b
}

/// `p` begins `t`.
fn has_prefix(t: &str, p: &str) -> (found: bool)
    ensures
        found == starts_with(t@, p@),
{
    let n = p.unicode_len();
    let m = t.unicode_len();
    if n > m {
        return false;
    }
    is_text(t.substring_char(0, n), p)
}

/// `t` looks like an option.
fn looks_like_option(t: &str) -> (found: bool)
    ensures
        found == is_option(t@),
{
    let m = t.unicode_len();
    m > 1 && t.get_char(0) == '-'
}

fn fault(kind: CliErrorKind, argument: &str) -> (e: CliError)
    ensures
        error_is(e, (kind, argument@)),
{
    CliError { kind, argument: argument.to_owned() }
}

fn bare_fault(kind: CliErrorKind) -> (e: CliError)
    ensures
        error_is(e, (kind, Seq::empty())),
{
    let empty = String::new();
    CliError { kind, argument: empty }
}

/// The view of an optional input file.
pub open spec fn input_view(input: Option<String>) -> Option<Seq<char>> {
    match input {
        Some(s) => Some(s@),
        None => None,
    }
}

fn take_input_exec(input: Option<String>, t: &str) -> (result: Result<Option<String>, CliError>)
    ensures
        match take_input(input_view(input), t@) {
            Ok(i) => result matches Ok(r) && input_view(r) == i,
            Err(f) => result matches Err(e) && error_is(e, f),
        },
{
    match input {
        Some(_) => Err(fault(CliErrorKind::UnexpectedArgument, t)),
        None => if t.unicode_len() == 0 {
            Err(fault(CliErrorKind::InvalidValue, t))
        } else {
            Ok(Some(t.to_owned()))
        },
    }
}

proof fn lemma_skip_step(tokens: Seq<Seq<char>>, k: int)
    requires
        0 <= k < tokens.len(),
    ensures
        tokens.skip(k)[0] == tokens[k],
        tokens.skip(k).drop_first() == tokens.skip(k + 1),
{
    assert(tokens.skip(k).drop_first() =~= tokens.skip(k + 1));
}

/// Scans the arguments of `check` after the subcommand.
fn parse_check(args: &[&str]) -> (result: Result<Cli, CliError>)
    requires
        args@.len() >= 2,
    ensures
        match scan_check(arg_views(args@).skip(2), (false, None, false)) {
            Err(f) => result matches Err(e) && error_is(e, f),
            Ok((_, None, _)) => result matches Err(e) && error_is(e, (CliErrorKind::MissingInput, Seq::empty())),
            Ok((_, Some(input), view)) => result matches Ok(cli) && cli.command matches Commands::Check(a)
                && a.input@ == input && a.view == view,
        },
{
    let ghost tokens = arg_views(args@).skip(2);
    let mut escaped = false;
    let mut input: Option<String> = None;
    let mut view = false;
    let mut k: usize = 2;
    assert(tokens.skip(0) =~= tokens);
    while k < args.len()
        invariant
            2 <= k <= args@.len(),
            tokens == arg_views(args@).skip(2),
            scan_check(tokens, (false, None, false)) == scan_check(
                tokens.skip(k - 2),
                (escaped, input_view(input), view),
            ),
        decreases args@.len() - k,
    {
        let t: &str = args[k];
        proof {
            lemma_skip_step(tokens, k - 2);
            assert(tokens[k - 2] == t@);
            assert(tokens.skip(k - 1) == tokens.skip(k - 2).drop_first());
        }
        if escaped {
            match take_input_exec(input, t) {
                Ok(i) => {
                    input = i;
                },
                Err(e) => {
                    return Err(e);
                },
            }
        } else if is_text(t, "--") {
            escaped = true;
        } else if is_text(t, "--help") || is_text(t, "-h") {
            return Err(bare_fault(CliErrorKind::HelpRequested));
        } else if is_text(t, "--view") {
            if view {
                return Err(fault(CliErrorKind::RepeatedArgument, t));
            }
            view = true;
        } else if has_prefix(t, "--view=") {
            return Err(fault(CliErrorKind::UnexpectedValue, t));
        } else if looks_like_option(t) {
            return Err(fault(CliErrorKind::UnexpectedArgument, t));
        } else {
            match take_input_exec(input, t) {
                Ok(i) => {
                    input = i;
                },
                Err(e) => {
                    return Err(e);
                },
            }
        }
        k = k + 1;
    }
    assert(tokens.skip(k - 2) =~= Seq::<Seq<char>>::empty());
    match input {
        None => Err(bare_fault(CliErrorKind::MissingInput)),
        Some(input) => Ok(Cli { command: Commands::Check(CheckArgs { input, view }) }),
    }
}

/// Scans the arguments of `solve` after the subcommand.
fn parse_solve(args: &[&str]) -> (result: Result<Cli, CliError>)
    requires
        args@.len() >= 2,
    ensures
        match scan_solve(arg_views(args@).skip(2), (false, None, false, None)) {
            Err(f) => result matches Err(e) && error_is(e, f),
            Ok((_, input, progress, view)) => if progress && view.is_some() {
                result matches Err(e) && error_is(e, (CliErrorKind::ArgumentConflict, Seq::empty()))
            } else {
                match input {
                    None => result matches Err(e) && error_is(e, (CliErrorKind::MissingInput, Seq::empty())),
                    Some(input) => result matches Ok(cli) && cli.command matches Commands::Solve(a)
                        && a.input@ == input && a.progress == progress && a.view == view,
                }
            },
        },
{
    let ghost tokens = arg_views(args@).skip(2);
    let mut escaped = false;
    let mut input: Option<String> = None;
    let mut progress = false;
    let mut view: Option<SolveViewMode> = None;
    let mut k: usize = 2;
    assert(tokens.skip(0) =~= tokens);
    while k < args.len()
        invariant
            2 <= k <= args@.len(),
            tokens == arg_views(args@).skip(2),
            scan_solve(tokens, (false, None, false, None)) == scan_solve(
                tokens.skip(k - 2),
                (escaped, input_view(input), progress, view),
            ),
        decreases args@.len() - k,
    {
        let t: &str = args[k];
        proof {
            lemma_skip_step(tokens, k - 2);
            assert(tokens[k - 2] == t@);
            assert(tokens.skip(k - 1) == tokens.skip(k - 2).drop_first());
        }
        if escaped {
            match take_input_exec(input, t) {
                Ok(i) => {
                    input = i;
                },
                Err(e) => {
                    return Err(e);
                },
            }
        } else if is_text(t, "--") {
            escaped = true;
        } else if is_text(t, "--help") || is_text(t, "-h") {
            return Err(bare_fault(CliErrorKind::HelpRequested));
        } else if is_text(t, "--progress") {
            if progress {
                return Err(fault(CliErrorKind::RepeatedArgument, t));
            }
            progress = true;
        } else if has_prefix(t, "--progress=") {
            return Err(fault(CliErrorKind::UnexpectedValue, t));
        } else if is_text(t, "--view") || has_prefix(t, "--view=") {
            if view.is_some() {
                return Err(fault(CliErrorKind::RepeatedArgument, t));
            }
            if is_text(t, "--view") {
                view = Some(SolveViewMode::After);
            } else {
                let start = "--view=".unicode_len();
                let value = t.substring_char(start, t.unicode_len());
                if is_text(value, "after") {
                    view = Some(SolveViewMode::After);
                } else if is_text(value, "live") {
                    view = Some(SolveViewMode::Live);
                } else {
                    return Err(fault(CliErrorKind::InvalidValue, value));
                }
            }
        } else if looks_like_option(t) {
            return Err(fault(CliErrorKind::UnexpectedArgument, t));
        } else {
            match take_input_exec(input, t) {
                Ok(i) => {
                    input = i;
                },
                Err(e) => {
                    return Err(e);
                },
            }
        }
        k = k + 1;
    }
    assert(tokens.skip(k - 2) =~= Seq::<Seq<char>>::empty());
    if progress && view.is_some() {
        return Err(bare_fault(CliErrorKind::ArgumentConflict));
    }
    match input {
        None => Err(bare_fault(CliErrorKind::MissingInput)),
        Some(input) => Ok(Cli { command: Commands::Solve(SolveArgs { input, progress, view }) }),
    }
}

impl Cli {
    /// Parses a command line, the program name first.
    pub fn try_parse_from(args: &[&str]) -> (result: Result<Cli, CliError>)
        ensures
            parse_matches(arg_views(args@), result),
    {
        if args.len() <= 1 {
            return Err(bare_fault(CliErrorKind::MissingSubcommand));
        }
        let first: &str = args[1];
        assert(arg_views(args@)[1] == first@);
        if is_text(first, "--help") || is_text(first, "-h") || is_text(first, "help") {
            Err(bare_fault(CliErrorKind::HelpRequested))
        } else if is_text(first, "--version") || is_text(first, "-V") {
            Err(bare_fault(CliErrorKind::VersionRequested))
        } else if is_text(first, "check") {
            parse_check(args)
        } else if is_text(first, "solve") {
            parse_solve(args)
        } else if looks_like_option(first) {
            Err(fault(CliErrorKind::UnexpectedArgument, first))
        } else {
            Err(fault(CliErrorKind::UnknownSubcommand, first))
        }
    }
}

/// A parsed `solve` command never both views its frames and reports its
/// progress, and every parsed command has an input file named on the line.
pub proof fn lemma_parsed_commands_are_consistent(args: Seq<Seq<char>>, cli: Cli)
    requires
        parse_matches(args, Ok(cli)),
    ensures
        cli.command matches Commands::Solve(a) ==> !(a.progress && a.view.is_some()),
        args.len() >= 3,
{
    if args.len() >= 2 {
        let rest = args.skip(2);
        if args[1] == "check"@ {
            lemma_scan_check_input(rest, (false, None, false));
        } else if args[1] == "solve"@ {
            lemma_scan_solve_input(rest, (false, None, false, None));
        }
    }
}

/// A scan of no arguments ends where it started.
proof fn lemma_scan_check_input(tokens: Seq<Seq<char>>, state: CheckScan)
    ensures
        tokens.len() == 0 ==> scan_check(tokens, state) == Ok::<CheckScan, Fault>(state),
{
}

proof fn lemma_scan_solve_input(tokens: Seq<Seq<char>>, state: SolveScan)
    ensures
        tokens.len() == 0 ==> scan_solve(tokens, state) == Ok::<SolveScan, Fault>(state),
{
}


/// A successful scan of the arguments of `solve` keeps what it has found:
/// the input file, the progress flag and the view.
proof fn lemma_scan_solve_keeps(tokens: Seq<Seq<char>>, state: SolveScan)
    ensures
        scan_solve(tokens, state) matches Ok(f) ==> {
            &&& state.1 is Some ==> f.1 == state.1
            &&& state.2 ==> f.2
            &&& state.3 is Some ==> f.3 == state.3
            &&& state.0 ==> f.0
        },
    decreases tokens.len(),
{
    if tokens.len() > 0 {
        if let Ok(next) = solve_step(state, tokens[0]) {
            lemma_scan_solve_keeps(tokens.drop_first(), next);
        }
    }
}

/// A successful scan of the arguments of `check` keeps what it has found:
/// the input file and the view flag.
proof fn lemma_scan_check_keeps(tokens: Seq<Seq<char>>, state: CheckScan)
    ensures
        scan_check(tokens, state) matches Ok(f) ==> {
            &&& state.1 is Some ==> f.1 == state.1
            &&& state.2 ==> f.2
            &&& state.0 ==> f.0
        },
    decreases tokens.len(),
{
    if tokens.len() > 0 {
        if let Ok(next) = check_step(state, tokens[0]) {
            lemma_scan_check_keeps(tokens.drop_first(), next);
        }
    }
}

/// The options of the command line look like options.
proof fn lemma_option_words()
    ensures
        is_option("--help"@),
        is_option("-h"@),
        is_option("--view"@),
        is_option("--progress"@),
        "--"@.len() == 2,
        forall|t: Seq<char>| starts_with(t, "--view="@) ==> is_option(t),
        forall|t: Seq<char>| starts_with(t, "--progress="@) ==> is_option(t),
{
    reveal_strlit("--help");
    reveal_strlit("-h");
    reveal_strlit("--view");
    reveal_strlit("--progress");
    reveal_strlit("--");
    reveal_strlit("--view=");
    reveal_strlit("--progress=");
    assert forall|t: Seq<char>| starts_with(t, "--view="@) implies is_option(t) by {
        assert(t.subrange(0, 7)[0] == t[0]);
    }
    assert forall|t: Seq<char>| starts_with(t, "--progress="@) implies is_option(t) by {
        assert(t.subrange(0, 11)[0] == t[0]);
    }
}

/// The argument at `k` is a file name to the scan: it comes after `--`, or
/// is neither `--` nor an option.
pub open spec fn names_file(tokens: Seq<Seq<char>>, k: int) -> bool {
    tokens.take(k).contains("--"@) || (tokens[k] != "--"@ && !is_option(tokens[k]))
}

proof fn lemma_names_file_rest(tokens: Seq<Seq<char>>, k: int)
    requires
        0 < k < tokens.len(),
        names_file(tokens, k),
        tokens[0] != "--"@,
    ensures
        names_file(tokens.drop_first(), k - 1),
{
    let rest = tokens.drop_first();
    assert(rest.take(k - 1) =~= tokens.take(k).drop_first());
    assert(rest[k - 1] == tokens[k]);
    if tokens.take(k).contains("--"@) {
        let j = choose|j: int| 0 <= j < tokens.take(k).len() && #[trigger] tokens.take(k)[j] == "--"@;
        assert(j != 0);
        assert(rest.take(k - 1)[j - 1] == "--"@);
    }
}

/// In a successful scan of the arguments of `solve`, the input file is the
/// argument that names a file.
proof fn lemma_scan_solve_file(tokens: Seq<Seq<char>>, state: SolveScan, k: int)
    requires
        0 <= k < tokens.len(),
        state.0 || names_file(tokens, k),
    ensures
        scan_solve(tokens, state) matches Ok(f) ==> state.1 is None && f.1 == Some(tokens[k]),
    decreases k,
{
    lemma_option_words();
    let t = tokens[0];
    if let Ok(next) = solve_step(state, t) {
        if k == 0 {
            lemma_scan_solve_keeps(tokens.drop_first(), next);
        } else {
            if state.0 || t == "--"@ {
                assert(next.0);
            } else {
                lemma_names_file_rest(tokens, k);
            }
            lemma_scan_solve_file(tokens.drop_first(), next, k - 1);
            assert(tokens.drop_first()[k - 1] == tokens[k]);
        }
    }
}

/// In a successful scan of the arguments of `check`, the input file is the
/// argument that names a file.
proof fn lemma_scan_check_file(tokens: Seq<Seq<char>>, state: CheckScan, k: int)
    requires
        0 <= k < tokens.len(),
        state.0 || names_file(tokens, k),
    ensures
        scan_check(tokens, state) matches Ok(f) ==> state.1 is None && f.1 == Some(tokens[k]),
    decreases k,
{
    lemma_option_words();
    let t = tokens[0];
    if let Ok(next) = check_step(state, t) {
        if k == 0 {
            lemma_scan_check_keeps(tokens.drop_first(), next);
        } else {
            if state.0 || t == "--"@ {
                assert(next.0);
            } else {
                lemma_names_file_rest(tokens, k);
            }
            lemma_scan_check_file(tokens.drop_first(), next, k - 1);
            assert(tokens.drop_first()[k - 1] == tokens[k]);
        }
    }
}

/// In a successful scan of the arguments of `solve`, `--progress` before any
/// `--` turns progress reporting on.
proof fn lemma_scan_solve_progress(tokens: Seq<Seq<char>>, state: SolveScan, k: int)
    requires
        !state.0,
        0 <= k < tokens.len(),
        !tokens.take(k).contains("--"@),
        tokens[k] == "--progress"@,
    ensures
        scan_solve(tokens, state) matches Ok(f) ==> f.2,
    decreases k,
{
    lemma_option_words();
    reveal_strlit("--progress");
    reveal_strlit("--");
    reveal_strlit("--help");
    reveal_strlit("-h");
    let t = tokens[0];
    if let Ok(next) = solve_step(state, t) {
        if k == 0 {
            lemma_scan_solve_keeps(tokens.drop_first(), next);
        } else {
            assert(tokens.take(k)[0] == t);
            lemma_names_file_rest_plain(tokens, k);
            lemma_scan_solve_progress(tokens.drop_first(), next, k - 1);
        }
    }
}

/// In a successful scan of the arguments of `check`, `--view` before any
/// `--` turns the view on.
proof fn lemma_scan_check_view(tokens: Seq<Seq<char>>, state: CheckScan, k: int)
    requires
        !state.0,
        0 <= k < tokens.len(),
        !tokens.take(k).contains("--"@),
        tokens[k] == "--view"@,
    ensures
        scan_check(tokens, state) matches Ok(f) ==> f.2,
    decreases k,
{
    lemma_option_words();
    reveal_strlit("--view");
    reveal_strlit("--");
    reveal_strlit("--help");
    reveal_strlit("-h");
    let t = tokens[0];
    if let Ok(next) = check_step(state, t) {
        if k == 0 {
            lemma_scan_check_keeps(tokens.drop_first(), next);
        } else {
            assert(tokens.take(k)[0] == t);
            lemma_names_file_rest_plain(tokens, k);
            lemma_scan_check_view(tokens.drop_first(), next, k - 1);
        }
    }
}

/// Dropping the first argument, not `--`, keeps the later ones free of `--`.
proof fn lemma_names_file_rest_plain(tokens: Seq<Seq<char>>, k: int)
    requires
        0 < k < tokens.len(),
        !tokens.take(k).contains("--"@),
    ensures
        tokens[0] != "--"@,
        !tokens.drop_first().take(k - 1).contains("--"@),
        tokens.drop_first()[k - 1] == tokens[k],
{
    let rest = tokens.drop_first();
    assert(tokens.take(k)[0] == tokens[0]);
    assert(rest.take(k - 1) =~= tokens.take(k).drop_first());
    if rest.take(k - 1).contains("--"@) {
        let j = choose|j: int| 0 <= j < rest.take(k - 1).len() && #[trigger] rest.take(k - 1)[j] == "--"@;
        assert(tokens.take(k)[j + 1] == "--"@);
    }
}

/// In a successful scan of the arguments of `solve`, a view argument that
/// comes before any `--` sets the view: `--view=after` and a bare `--view`
/// to after solving, `--view=live` to live.
proof fn lemma_scan_solve_view(tokens: Seq<Seq<char>>, state: SolveScan, k: int)
    requires
        !state.0,
        0 <= k < tokens.len(),
        !tokens.take(k).contains("--"@),
    ensures
        scan_solve(tokens, state) matches Ok(f) ==> {
            &&& tokens[k] == "--view=after"@ ==> f.3 == Some(SolveViewMode::After)
            &&& tokens[k] == "--view"@ ==> f.3 == Some(SolveViewMode::After)
            &&& tokens[k] == "--view=live"@ ==> f.3 == Some(SolveViewMode::Live)
        },
    decreases k,
{
    let t = tokens[0];
    if k == 0 {
        if let Ok(next) = solve_step(state, t) {
            if t == "--view=after"@ || t == "--view"@ || t == "--view=live"@ {
                reveal_strlit("--view=after");
                reveal_strlit("--view=live");
                reveal_strlit("--view");
                reveal_strlit("--view=");
                reveal_strlit("after");
                reveal_strlit("live");
                reveal_strlit("--");
                reveal_strlit("--help");
                reveal_strlit("-h");
                reveal_strlit("--progress");
                reveal_strlit("--progress=");
                assert("--view=after"@.subrange(0, 7) =~= "--view="@);
                assert("--view=live"@.subrange(0, 7) =~= "--view="@);
                assert(starts_with("--view=after"@, "--view="@));
                assert(starts_with("--view=live"@, "--view="@));
                assert("--view=after"@.subrange(7, 12) =~= "after"@);
                assert("--view=live"@.subrange(7, 11) =~= "live"@);
                assert(t != "--"@);
                assert(t != "--help"@ && t != "-h"@ && t != "--progress"@);
                assert(!starts_with(t, "--progress="@));
                lemma_scan_solve_keeps(tokens.drop_first(), next);
            }
        }
    } else {
        assert(tokens.take(k)[0] == t);
        assert(t != "--"@);
        if let Ok(next) = solve_step(state, t) {
            assert(!next.0);
            let rest = tokens.drop_first();
            assert(rest.take(k - 1) =~= tokens.take(k).drop_first());
            assert(!rest.take(k - 1).contains("--"@)) by {
                if rest.take(k - 1).contains("--"@) {
                    let j = choose|j: int| 0 <= j < rest.take(k - 1).len() && #[trigger] rest.take(k - 1)[j] == "--"@;
                    assert(tokens.take(k)[j + 1] == "--"@);
                }
            }
            lemma_scan_solve_view(rest, next, k - 1);
            assert(rest[k - 1] == tokens[k]);
        }
    }
}

/// The view of a parsed `solve` command is the one its view argument names:
/// `--view=after` and a bare `--view` view the frames after solving,
/// `--view=live` views them live, wherever the argument stands before `--`.
pub proof fn lemma_view_argument_names_the_mode(args: Seq<Seq<char>>, cli: Cli, k: int)
    requires
        parse_matches(args, Ok(cli)),
        args.len() > 1,
        args[1] == "solve"@,
        2 <= k < args.len(),
        !args.subrange(2, k).contains("--"@),
    ensures
        args[k] == "--view=after"@ ==> (cli.command matches Commands::Solve(a) && a.view == Some(
            SolveViewMode::After,
        )),
        args[k] == "--view"@ ==> (cli.command matches Commands::Solve(a) && a.view == Some(
            SolveViewMode::After,
        )),
        args[k] == "--view=live"@ ==> (cli.command matches Commands::Solve(a) && a.view == Some(
            SolveViewMode::Live,
        )),
{
    let rest = args.skip(2);
    assert(rest.take(k - 2) =~= args.subrange(2, k));
    assert(rest[k - 2] == args[k]);
    lemma_subcommand_words();
    lemma_scan_solve_view(rest, (false, None, false, None), k - 2);
}


/// The subcommand words differ from the words that ask for help or the
/// version, and from each other.
proof fn lemma_subcommand_words()
    ensures
        "solve"@ != "--help"@ && "solve"@ != "-h"@ && "solve"@ != "help"@,
        "solve"@ != "--version"@ && "solve"@ != "-V"@ && "solve"@ != "check"@,
        "check"@ != "--help"@ && "check"@ != "-h"@ && "check"@ != "help"@,
        "check"@ != "--version"@ && "check"@ != "-V"@,
{
    reveal_strlit("solve");
    reveal_strlit("check");
    reveal_strlit("--help");
    reveal_strlit("-h");
    reveal_strlit("help");
    reveal_strlit("--version");
    reveal_strlit("-V");
    assert("solve"@.len() == 5 && "--help"@.len() == 6 && "-h"@.len() == 2 && "help"@.len() == 4);
    assert("--version"@.len() == 9 && "-V"@.len() == 2 && "solve"@[0] != "check"@[0]);
    assert("check"@.len() == 5);
}

/// The input file of a parsed command is the argument that names a file:
/// one that comes after `--`, or is neither `--` nor an option.
pub proof fn lemma_input_is_the_file_argument(args: Seq<Seq<char>>, cli: Cli, k: int)
    requires
        parse_matches(args, Ok(cli)),
        2 <= k < args.len(),
        names_file(args.skip(2), k - 2),
    ensures
        cli.command matches Commands::Check(a) ==> a.input@ == args[k],
        cli.command matches Commands::Solve(a) ==> a.input@ == args[k],
{
    let rest = args.skip(2);
    assert(rest[k - 2] == args[k]);
    lemma_subcommand_words();
    if args[1] == "check"@ {
        lemma_scan_check_file(rest, (false, None, false), k - 2);
    } else if args[1] == "solve"@ {
        lemma_scan_solve_file(rest, (false, None, false, None), k - 2);
    }
}

/// A parsed `solve` command given `--progress`, and a parsed `check` command
/// given `--view`, before any `--`, have that flag on.
pub proof fn lemma_flags_are_read(args: Seq<Seq<char>>, cli: Cli, k: int)
    requires
        parse_matches(args, Ok(cli)),
        2 <= k < args.len(),
        !args.subrange(2, k).contains("--"@),
    ensures
        args[1] == "solve"@ && args[k] == "--progress"@ ==> (cli.command matches Commands::Solve(a)
            && a.progress),
        args[1] == "check"@ && args[k] == "--view"@ ==> (cli.command matches Commands::Check(a) && a.view),
{
    let rest = args.skip(2);
    assert(rest.take(k - 2) =~= args.subrange(2, k));
    assert(rest[k - 2] == args[k]);
    lemma_subcommand_words();
    if args[1] == "solve"@ && args[k] == "--progress"@ {
        lemma_scan_solve_progress(rest, (false, None, false, None), k - 2);
    }
    if args[1] == "check"@ && args[k] == "--view"@ {
        lemma_scan_check_view(rest, (false, None, false), k - 2);
    }
}

} // verus!
