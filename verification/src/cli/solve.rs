//! What `km solve` reports of its progress.
use vstd::prelude::*;

use crate::cli::{SolveArgs, SolveViewMode};
use crate::cli::check::{LoadError, RunError, load_and_prepare, load_matches};
use crate::io::yaml::YamlInput;
use crate::problem::PreparedProblem;
use crate::text::push_str;

verus! {

/// `text` followed by spaces up to `width` characters, as `{:<width}` does.
pub open spec fn padded(text: Seq<char>, width: nat) -> Seq<char> {
    if text.len() >= width {
        text
    } else {
        text + Seq::new((width - text.len()) as nat, |i: int| ' ')
    }
}

/// Appends `text` to `s`, padded with spaces to `width` characters.
fn push_padded(s: &mut String, text: &str, width: usize)
    ensures
        final(s)@ == old(s)@ + padded(text@, width as nat),
{
    push_str(s, text);
    let n = text.unicode_len();
    let mut k = n;
    while k < width
        invariant
            n == text@.len(),
            n <= k <= width || (k == n && n >= width),
            s@ == old(s)@ + text@ + Seq::new((k - n) as nat, |i: int| ' '),
        decreases width - k,
    {
        push_str(s, " ");
        proof {
            reveal_strlit(" ");
            assert(Seq::new((k - n) as nat, |i: int| ' ').push(' ') =~= Seq::new((k + 1 - n) as nat, |i: int| ' '));
        }
        k = k + 1;
    }
    assert(old(s)@ + text@ + Seq::new((k - n) as nat, |i: int| ' ') =~= old(s)@ + padded(text@, width as nat));
}

/// The header of the progress table: an empty line, the column titles and
/// their underlines, each column left-aligned in its width (12, 15, 12).
pub open spec fn progress_header() -> Seq<char> {
    "\n"@ + padded("Current Step"@, 12) + " "@ + padded("Current Time"@, 15) + " "@ + padded("Progress (%)"@, 12)
        + "\n"@ + padded("------------"@, 12) + " "@ + padded("-------------"@, 15) + " "@ + padded(
        "------------"@,
        12,
    ) + "\n"@
}

/// The header of the progress table that `km solve --progress` writes to
/// standard error.
pub fn render_progress_header() -> (header: String)
    ensures
        header@ == progress_header(),
{
    let mut header = String::new();
    push_str(&mut header, "\n");
    push_padded(&mut header, "Current Step", 12);
    push_str(&mut header, " ");
    push_padded(&mut header, "Current Time", 15);
    push_str(&mut header, " ");
    push_padded(&mut header, "Progress (%)", 12);
    push_str(&mut header, "\n");
    push_padded(&mut header, "------------", 12);
    push_str(&mut header, " ");
    push_padded(&mut header, "-------------", 15);
    push_str(&mut header, " ");
    push_padded(&mut header, "------------", 12);
    push_str(&mut header, "\n");
    assert(header@ =~= progress_header());
    header
}

/// Whether solving reports its progress at frame `frame_index` (counted
/// from 0) of `frame_count`: at the first frame, every twentieth, and the last.
pub fn reports_progress_at(frame_index: usize, frame_count: usize) -> (report: bool)
    requires
        frame_index < frame_count,
    ensures
        report == (frame_index == 0 || (frame_index + 1) % 20 == 0 || frame_index + 1 == frame_count),
{
    frame_index == 0 || (frame_index + 1).is_multiple_of(20) || frame_index + 1 == frame_count
}

/// What `km solve` goes on with: the prepared problem, whether to report
/// progress, and how to view the solved frames.
pub struct SolvePlan {
    pub problem: PreparedProblem,
    pub progress: bool,
    pub view: Option<SolveViewMode>,
}

/// Prepares the document of `km solve` for solving.
pub fn run(args: SolveArgs, document: Result<YamlInput, LoadError>) -> (result: Result<SolvePlan, RunError>)
    ensures
        exists|prepared: Result<PreparedProblem, RunError>|
            #[trigger] load_matches(args.input, document, prepared) && match prepared {
                Err(e) => result == Err::<SolvePlan, RunError>(e),
                Ok(problem) => result == Ok::<SolvePlan, RunError>(
                    SolvePlan { problem, progress: args.progress, view: args.view },
                ),
            },
{
    match load_and_prepare(&args.input, document) {
        Err(e) => Err(e),
        Ok(problem) => Ok(SolvePlan { problem, progress: args.progress, view: args.view }),
    }
}

} // verus!
