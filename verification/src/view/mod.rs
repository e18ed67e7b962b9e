//! What the terminal viewer shows: the projection planes, the check that a
//! set of solved poses covers the model, and the viewer's playback state.
use vstd::prelude::*;

pub mod terminal;

use crate::model::{Body, BodyId, Model};
use crate::text::{decimal, push_decimal, push_str};

verus! {

/// The plane onto which the scene is drawn.
#[derive(Clone, Copy, Debug, PartialEq, Eq, Structural)]
pub enum Projection {
    Xy,
    Xz,
    Yz,
    Isometric,
}

/// Why a scene cannot be built from a set of solved poses.
#[derive(Debug, PartialEq, Eq, Structural)]
pub enum SceneBuildError {
    MissingBodyPose { body_id: BodyId },
}

/// The message that reports `e`.
pub open spec fn scene_error_text(e: SceneBuildError) -> Seq<char> {
    match e {
        SceneBuildError::MissingBodyPose { body_id } => "solved poses do not contain body `"@ + decimal(
            body_id.0 as nat,
        ) + "`"@,
    }
}

impl SceneBuildError {
    /// The message that reports the error.
    pub fn message(&self) -> (text: String)
        ensures
            text@ == scene_error_text(*self),
    {
        let mut text = String::new();
        match self {
            SceneBuildError::MissingBodyPose { body_id } => {
                push_str(&mut text, "solved poses do not contain body `");
                push_decimal(&mut text, body_id.0);
                push_str(&mut text, "`");
            },
        }
        text
    }
}

/// The first body of `bodies`, in order, whose identifier is not in `posed`.
pub open spec fn first_unposed_body(bodies: Seq<Body>, posed: Seq<BodyId>) -> Option<BodyId>
    decreases bodies.len(),
{
    if bodies.len() == 0 {
        None
    } else {
        match first_unposed_body(bodies.drop_last(), posed) {
            Some(id) => Some(id),
            None => if posed.contains(bodies.last().id) {
                None
            } else {
                Some(bodies.last().id)
            },
        }
    }
}

proof fn lemma_first_unposed_body_prefix(bodies: Seq<Body>, posed: Seq<BodyId>, end: int)
    requires
        0 <= end <= bodies.len(),
        first_unposed_body(bodies.take(end), posed).is_some(),
    ensures
        first_unposed_body(bodies, posed) == first_unposed_body(bodies.take(end), posed),
    decreases bodies.len() - end,
{
    if end < bodies.len() {
        assert(bodies.take(end + 1).drop_last() =~= bodies.take(end));
        lemma_first_unposed_body_prefix(bodies, posed, end + 1);
    } else {
        assert(bodies.take(end) =~= bodies);
    }
}

/// Checks that every body of the model, ground included, has a solved pose
/// among the bodies `posed`; names the first body, in model order, that has
/// none.
pub fn check_body_poses(model: &Model, posed: &[BodyId]) -> (result: Result<(), SceneBuildError>)
    ensures
        match first_unposed_body(model.body_seq(), posed@) {
            Some(body_id) => result == Err::<(), SceneBuildError>(SceneBuildError::MissingBodyPose { body_id }),
            None => result is Ok,
        },
{
    let bodies = model.bodies();
    let ghost bs = model.body_seq();
    let n = bodies.len();
    let mut b: usize = 0;
    while b < n
        invariant
            b <= n,
            n == bs.len(),
            bodies@ == bs,
            bs == model.body_seq(),
            first_unposed_body(bs.take(b as int), posed@).is_none(),
        decreases n - b,
    {
        let id = bodies.at(b).id;
        assert(bs.take(b + 1).drop_last() =~= bs.take(b as int));
        assert(bs.take(b + 1).last() == bs[b as int]);
        let mut found = false;
        let mut k: usize = 0;
        while k < posed.len()
            invariant
                k <= posed@.len(),
                found == posed@.take(k as int).contains(id),
            decreases posed@.len() - k,
        {
            let ghost before = posed@.take(k as int);
            assert(posed@.take(k + 1) =~= before.push(posed@[k as int]));
            assert(posed@.take(k + 1).contains(id) <==> (before.contains(id) || posed@[k as int] == id)) by {
                let after = posed@.take(k + 1);
                if after.contains(id) {
                    let m = choose|m: int| 0 <= m < after.len() && after[m] == id;
                    if m < k {
                        assert(before[m] == id);
                    }
                }
                if before.contains(id) {
                    let m = choose|m: int| 0 <= m < before.len() && before[m] == id;
                    assert(after[m] == id);
                }
                if posed@[k as int] == id {
                    assert(after[k as int] == id);
                }
            }
            if posed[k] == id {
                found = true;
            }
            k = k + 1;
        }
        assert(posed@.take(posed@.len() as int) =~= posed@);
        if !found {
            proof {
                lemma_first_unposed_body_prefix(bs, posed@, (b + 1) as int);
            }
            return Err(SceneBuildError::MissingBodyPose { body_id: id });
        }
        b = b + 1;
    }
    assert(bs.take(n as int) =~= bs);
    Ok(())
}

} // verus!
