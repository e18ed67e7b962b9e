//! Assignment of the prescribed motions to the joints they drive.
//!
//! Every motion names one joint of the model, and no joint is driven by two
//! motions. A joint without a motion keeps its unprescribed coordinates.
use vstd::prelude::*;

use crate::model::{Input, JointId, Joint, Motion, has_joint, joint_id_text, push_joint_id};
use crate::text::push_str;

verus! {

/// Some motion of `motions` drives joint `id`.
pub open spec fn has_motion(motions: Seq<Motion>, id: JointId) -> bool {
    exists|k: int| 0 <= k < motions.len() && (#[trigger] motions[k]).joint_id == id
}

/// The position of the first motion of `motions` that drives joint `id`.
pub open spec fn first_motion_index(motions: Seq<Motion>, id: JointId) -> int
    decreases motions.len(),
{
    if motions.len() == 0 {
        -1
    } else if has_motion(motions.drop_last(), id) {
        first_motion_index(motions.drop_last(), id)
    } else if motions.last().joint_id == id {
        motions.len() - 1
    } else {
        -1
    }
}

/// The first problem among the motions, taken in order: a motion that names
/// a joint the model does not have, or a second motion of one joint, which
/// names the first motion of that joint too.
pub open spec fn motion_error(joints: Seq<Joint>, motions: Seq<Motion>) -> Option<JointCoordinateError>
    decreases motions.len(),
{
    if motions.len() == 0 {
        None
    } else {
        match motion_error(joints, motions.drop_last()) {
            Some(e) => Some(e),
            None => {
                let motion = motions.last();
                let earlier = motions.drop_last();
                if !has_joint(joints, motion.joint_id) {
                    Some(
                        JointCoordinateError::UnknownJoint {
                            motion_name: motion.name,
                            joint_id: motion.joint_id,
                        },
                    )
                } else if has_motion(earlier, motion.joint_id) {
                    Some(
                        JointCoordinateError::DuplicateMotion {
                            joint_id: motion.joint_id,
                            first_motion: earlier[first_motion_index(earlier, motion.joint_id)].name,
                            second_motion: motion.name,
                        },
                    )
                } else {
                    None
                }
            },
        }
    }
}

/// The coordinate of one joint: which motion, if any, prescribes it.
#[derive(Clone, Copy, Debug, PartialEq, Eq, Structural)]
pub struct JointCoordinate {
    pub joint_id: JointId,
    /// The position of the driving motion among the motions of the input.
    pub motion_index: Option<usize>,
}

impl JointCoordinate {
    pub fn joint_id(&self) -> (id: JointId)
        ensures
            id == self.joint_id,
    {
        self.joint_id
    }

    pub fn motion_index(&self) -> (index: Option<usize>)
        ensures
            index == self.motion_index,
    {
        self.motion_index
    }
}

/// `coordinate` is the coordinate of `joint` under `motions`: it names the
/// joint and the motion driving it, or no motion where none does.
pub open spec fn coordinate_of(motions: Seq<Motion>, joint: Joint, coordinate: JointCoordinate) -> bool {
    &&& coordinate.joint_id == joint.id
    &&& match coordinate.motion_index {
        Some(k) => k < motions.len() && motions[k as int].joint_id == joint.id,
        None => !has_motion(motions, joint.id),
    }
}

/// The coordinates of all joints of a model, one per joint in model order.
#[derive(Debug)]
pub struct JointCoordinates {
    values: Vec<JointCoordinate>,
}

impl View for JointCoordinates {
    type V = Seq<JointCoordinate>;

    closed spec fn view(&self) -> Seq<JointCoordinate> {
        self.values@
    }
}

impl JointCoordinates {
    /// The coordinate of joint `joint_id`.
    pub fn get(&self, joint_id: JointId) -> (coordinate: Option<&JointCoordinate>)
        ensures
            match coordinate {
                Some(c) => c.joint_id == joint_id && self@.contains(*c),
                None => forall|k: int| 0 <= k < self@.len() ==> (#[trigger] self@[k]).joint_id != joint_id,
            },
    {
        let n = self.values.len();
        let mut k: usize = 0;
        while k < n
            invariant
                k <= n,
                n == self@.len(),
                self@ == self.values@,
                forall|m: int| 0 <= m < k ==> (#[trigger] self@[m]).joint_id != joint_id,
            decreases n - k,
        {
            if self.values[k].joint_id == joint_id {
                return Some(&self.values[k]);
            }
            k = k + 1;
        }
        None
    }
}

/// `coordinates` holds, in joint order, the coordinate of each joint.
pub open spec fn coordinates_match(joints: Seq<Joint>, motions: Seq<Motion>, coordinates: Seq<JointCoordinate>) -> bool {
    &&& coordinates.len() == joints.len()
    &&& forall|k: int| 0 <= k < joints.len() ==> coordinate_of(motions, joints[k], #[trigger] coordinates[k])
}

/// The position of the first of the first `end` motions that drives joint `id`.
fn find_motion(motions: &[Motion], end: usize, id: JointId) -> (index: Option<usize>)
    requires
        end <= motions@.len(),
    ensures
        match index {
            Some(k) => k < end && motions@[k as int].joint_id == id && k == first_motion_index(
                motions@.take(end as int),
                id,
            ),
            None => !has_motion(motions@.take(end as int), id),
        },
{
    let mut k: usize = 0;
    while k < end
        invariant
            k <= end,
            end <= motions@.len(),
            forall|m: int| 0 <= m < k ==> (#[trigger] motions@[m]).joint_id != id,
        decreases end - k,
    {
        if motions[k].joint_id == id {
            proof {
                lemma_first_motion_index(motions@.take(end as int), id, k as int);
            }
            return Some(k);
        }
        k = k + 1;
    }
    proof {
        assert forall|m: int| 0 <= m < end implies (#[trigger] motions@.take(end as int)[m]).joint_id != id by {
            assert(motions@.take(end as int)[m] == motions@[m]);
        }
    }
    None
}

/// The first motion driving `id` is the one at `k` when no earlier one does.
proof fn lemma_first_motion_index(motions: Seq<Motion>, id: JointId, k: int)
    requires
        0 <= k < motions.len(),
        motions[k].joint_id == id,
        forall|m: int| 0 <= m < k ==> (#[trigger] motions[m]).joint_id != id,
    ensures
        first_motion_index(motions, id) == k,
    decreases motions.len(),
{
    let earlier = motions.drop_last();
    if k == motions.len() - 1 {
        assert(!has_motion(earlier, id)) by {
            if has_motion(earlier, id) {
                let m = choose|m: int| 0 <= m < earlier.len() && (#[trigger] earlier[m]).joint_id == id;
                assert(motions[m] == earlier[m]);
            }
        }
    } else {
        assert(earlier[k] == motions[k]);
        assert forall|m: int| 0 <= m < k implies (#[trigger] earlier[m]).joint_id != id by {
            assert(earlier[m] == motions[m]);
        }
        lemma_first_motion_index(earlier, id, k);
        assert(has_motion(earlier, id));
    }
}

/// A motion error found in a prefix is the error of the whole sequence.
proof fn lemma_motion_error_prefix(joints: Seq<Joint>, motions: Seq<Motion>, end: int)
    requires
        0 <= end <= motions.len(),
        motion_error(joints, motions.take(end)).is_some(),
    ensures
        motion_error(joints, motions) == motion_error(joints, motions.take(end)),
    decreases motions.len() - end,
{
    if end < motions.len() {
        assert(motions.take(end + 1).drop_last() =~= motions.take(end));
        lemma_motion_error_prefix(joints, motions, end + 1);
    } else {
        assert(motions.take(end) =~= motions);
    }
}

/// Assigns each motion of the input to the joint it drives.
///
/// Fails on the first motion, in input order, that names an unknown joint or
/// drives a joint that an earlier motion drives already.
pub fn resolve_joint_coordinates(input: &Input) -> (result: Result<JointCoordinates, JointCoordinateError>)
    ensures
        match result {
            Ok(coordinates) => motion_error(input.spec_model().joint_seq(), input.motion_seq()).is_none()
                && coordinates_match(input.spec_model().joint_seq(), input.motion_seq(), coordinates@),
            Err(e) => motion_error(input.spec_model().joint_seq(), input.motion_seq()) == Some(e),
        },
{
    let joints = input.model().joints();
    let motions = input.motions();
    let ghost js = input.spec_model().joint_seq();
    let ghost ms = input.motion_seq();
    let n = motions.len();
    let mut k: usize = 0;
    while k < n
        invariant
            k <= n,
            n == ms.len(),
            motions@ == ms,
            joints@ == js,
            js == input.spec_model().joint_seq(),
            ms == input.motion_seq(),
            motion_error(js, ms.take(k as int)).is_none(),
        decreases n - k,
    {
        let motion = &motions[k];
        let joint_id = motion.joint_id;
        assert(ms.take(k + 1).drop_last() =~= ms.take(k as int));
        assert(ms.take(k + 1).last() == ms[k as int]);
        if !joints.contains(joint_id) {
            proof {
                lemma_motion_error_prefix(js, ms, (k + 1) as int);
            }
            return Err(
                JointCoordinateError::UnknownJoint { motion_name: motion.name.clone(), joint_id },
            );
        }
        match find_motion(motions, k, joint_id) {
            Some(first) => {
                proof {
                    assert(ms.take(k as int)[first as int] == ms[first as int]);
                    lemma_motion_error_prefix(js, ms, (k + 1) as int);
                }
                return Err(
                    JointCoordinateError::DuplicateMotion {
                        joint_id,
                        first_motion: motions[first].name.clone(),
                        second_motion: motion.name.clone(),
                    },
                );
            },
            None => {},
        }
        k = k + 1;
    }
    assert(ms.take(n as int) =~= ms);
    let joint_count = joints.len();
    let mut values: Vec<JointCoordinate> = Vec::new();
    let mut j: usize = 0;
    while j < joint_count
        invariant
            j <= joint_count,
            joint_count == js.len(),
            joints@ == js,
            motions@ == ms,
            n == ms.len(),
            js == input.spec_model().joint_seq(),
            ms == input.motion_seq(),
            motion_error(js, ms).is_none(),
            values@.len() == j,
            forall|m: int| 0 <= m < j ==> coordinate_of(ms, js[m], #[trigger] values@[m]),
        decreases joint_count - j,
    {
        let joint_id = joints.at(j).id;
        let motion_index = find_motion(motions, n, joint_id);
        assert(ms.take(n as int) =~= ms);
        values.push(JointCoordinate { joint_id, motion_index });
        j = j + 1;
    }
    Ok(JointCoordinates { values })
}

/// Without a motion error, every motion names a joint of the model and no
/// two motions name the same joint.
proof fn lemma_motion_error_none(joints: Seq<Joint>, motions: Seq<Motion>)
    requires
        motion_error(joints, motions).is_none(),
    ensures
        forall|k: int| 0 <= k < motions.len() ==> has_joint(joints, (#[trigger] motions[k]).joint_id),
        forall|k: int, m: int|
            0 <= m < k < motions.len() ==> (#[trigger] motions[m]).joint_id != (#[trigger] motions[k]).joint_id,
    decreases motions.len(),
{
    if motions.len() > 0 {
        let earlier = motions.drop_last();
        lemma_motion_error_none(joints, earlier);
        assert forall|k: int| 0 <= k < motions.len() implies has_joint(joints, (#[trigger] motions[k]).joint_id) by {
            if k < earlier.len() {
                assert(earlier[k] == motions[k]);
            }
        }
        assert forall|k: int, m: int| 0 <= m < k < motions.len() implies (#[trigger] motions[m]).joint_id != (
        #[trigger] motions[k]).joint_id by {
            assert(earlier[m] == motions[m]);
            if k < earlier.len() {
                assert(earlier[k] == motions[k]);
            } else {
                assert(!has_motion(earlier, motions.last().joint_id));
            }
        }
    }
}

/// Once the motions are assigned, each motion drives exactly the joint it
/// names: the coordinate of that joint is prescribed by that motion.
pub proof fn lemma_each_motion_drives_its_joint(
    joints: Seq<Joint>,
    motions: Seq<Motion>,
    coordinates: Seq<JointCoordinate>,
)
    requires
        motion_error(joints, motions).is_none(),
        coordinates_match(joints, motions, coordinates),
    ensures
        forall|k: int|
            0 <= k < motions.len() ==> exists|q: int|
                0 <= q < coordinates.len() && coordinates[q].joint_id == (#[trigger] motions[k]).joint_id
                    && coordinates[q].motion_index == Some(k as usize),
{
    lemma_motion_error_none(joints, motions);
    assert forall|k: int| 0 <= k < motions.len() implies exists|q: int|
        0 <= q < coordinates.len() && coordinates[q].joint_id == (#[trigger] motions[k]).joint_id
            && coordinates[q].motion_index == Some(k as usize) by {
        let q = choose|q: int| 0 <= q < joints.len() && (#[trigger] joints[q]).id == motions[k].joint_id;
        assert(coordinate_of(motions, joints[q], coordinates[q]));
        match coordinates[q].motion_index {
            Some(m) => {
                if (m as int) < k {
                    assert(motions[m as int].joint_id != motions[k].joint_id);
                } else if (m as int) > k {
                    assert(motions[k].joint_id != motions[m as int].joint_id);
                }
            },
            None => {
                assert(has_motion(motions, joints[q].id));
            },
        }
    }
}

/// Why the motions of an input cannot be assigned to its joints.
#[derive(Debug, PartialEq, Eq)]
#[non_exhaustive]
pub enum JointCoordinateError {
    UnknownJoint { motion_name: String, joint_id: JointId },
    DuplicateMotion { joint_id: JointId, first_motion: String, second_motion: String },
}

/// The message that reports `e`.
pub open spec fn coordinate_error_text(e: JointCoordinateError) -> Seq<char> {
    match e {
        JointCoordinateError::UnknownJoint { motion_name, joint_id } => "motion `"@ + motion_name@
            + "` references unknown joint `"@ + joint_id_text(joint_id) + "`"@,
        JointCoordinateError::DuplicateMotion { joint_id, first_motion, second_motion } => "joint `"@
            + joint_id_text(joint_id) + "` has two motions: `"@ + first_motion@ + "` and `"@ + second_motion@
            + "`"@,
    }
}

impl JointCoordinateError {
    /// The message that reports the error.
    pub fn message(&self) -> (text: String)
        ensures
            text@ == coordinate_error_text(*self),
    {
        let mut text = String::new();
        match self {
            JointCoordinateError::UnknownJoint { motion_name, joint_id } => {
                push_str(&mut text, "motion `");
                push_str(&mut text, motion_name.as_str());
                push_str(&mut text, "` references unknown joint `");
                push_joint_id(&mut text, *joint_id);
                push_str(&mut text, "`");
            },
            JointCoordinateError::DuplicateMotion { joint_id, first_motion, second_motion } => {
                push_str(&mut text, "joint `");
                push_joint_id(&mut text, *joint_id);
                push_str(&mut text, "` has two motions: `");
                push_str(&mut text, first_motion.as_str());
                push_str(&mut text, "` and `");
                push_str(&mut text, second_motion.as_str());
                push_str(&mut text, "`");
            },
        }
        text
    }
}

} // verus!
