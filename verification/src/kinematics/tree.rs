//! The directed kinematic tree of a model: each joint leads from the body of
//! its I marker (the parent) to the body of its J marker (the child).
//!
//! Every body but ground has exactly one parent joint, and every body is
//! reached from ground. The steps list the joints breadth-first from ground,
//! the children of one parent in ascending order of (child, joint).
use vstd::prelude::*;

use crate::graph::{lemma_reaches_mono, reaches};
use crate::model::{Body, BodyId, JointId, Joint, Model, body_id_text, joint_id_text, push_body_id, push_joint_id};
use crate::text::push_str;
use crate::problem::traversal::{
    Arc, arc_graph, arcs_unique, breadth_first, emits_either_way, is_breadth_first, lemma_breadth_first_unique,
    lemma_reached_push,
    reached_bodies,
};
use crate::problem::tree::TraversalDirection;

verus! {

/// The directed kinematic tree: its steps, parent before child.
#[derive(Debug, PartialEq, Eq)]
pub struct KinematicTree {
    steps: Vec<KinematicTreeStep>,
}

impl KinematicTree {
    /// The steps of the tree.
    pub closed spec fn step_seq(&self) -> Seq<KinematicTreeStep> {
        self.steps@
    }

    pub fn steps(&self) -> (steps: &[KinematicTreeStep])
        ensures
            steps@ == self.step_seq(),
    {
        self.steps.as_slice()
    }
}

/// One step of the tree: a joint from a parent body to a child body.
#[derive(Clone, Copy, Debug, PartialEq, Eq, Structural)]
pub struct KinematicTreeStep {
    pub parent_id: BodyId,
    pub child_id: BodyId,
    pub joint_id: JointId,
}

/// A step as an arc from parent to child.
pub open spec fn step_arc(step: KinematicTreeStep) -> Arc {
    Arc {
        from: step.parent_id,
        to: step.child_id,
        joint_id: step.joint_id,
        direction: TraversalDirection::IToJ,
    }
}

/// The arc of a joint, from the body of its I marker to that of its J marker.
pub open spec fn directed_arc(joint: Joint) -> Arc {
    Arc {
        from: joint.i_marker.body_id,
        to: joint.j_marker.body_id,
        joint_id: joint.id,
        direction: TraversalDirection::IToJ,
    }
}

/// The arcs of all joints, in joint order.
pub open spec fn directed_arcs(joints: Seq<Joint>) -> Seq<Arc> {
    joints.map_values(|joint: Joint| directed_arc(joint))
}

/// Some joint of `joints` has `child` as the body of its J marker.
pub open spec fn has_parent_joint(joints: Seq<Joint>, child: BodyId) -> bool {
    exists|k: int| 0 <= k < joints.len() && (#[trigger] joints[k]).j_marker.body_id == child
}

/// The first joint of `joints` whose J marker is on `child`.
pub open spec fn first_parent_joint(joints: Seq<Joint>, child: BodyId) -> Joint
    recommends
        has_parent_joint(joints, child),
    decreases joints.len(),
{
    if joints.len() == 0 {
        arbitrary()
    } else if has_parent_joint(joints.drop_last(), child) {
        first_parent_joint(joints.drop_last(), child)
    } else {
        joints.last()
    }
}

/// The first joint, in order, that makes a body its own parent, makes ground
/// a child, or gives a body a second parent.
pub open spec fn first_direction_error(joints: Seq<Joint>) -> Option<KinematicTreeError>
    decreases joints.len(),
{
    if joints.len() == 0 {
        None
    } else {
        match first_direction_error(joints.drop_last()) {
            Some(e) => Some(e),
            None => {
                let joint = joints.last();
                let parent_id = joint.i_marker.body_id;
                let child_id = joint.j_marker.body_id;
                let earlier = joints.drop_last();
                if parent_id == child_id {
                    Some(KinematicTreeError::SelfParenting { body_id: parent_id, joint_id: joint.id })
                } else if child_id.0 == 0 {
                    Some(KinematicTreeError::GroundAsChild { parent_id, joint_id: joint.id })
                } else if has_parent_joint(earlier, child_id) {
                    Some(
                        KinematicTreeError::DuplicateParent {
                            body_id: child_id,
                            first_joint_id: first_parent_joint(earlier, child_id).id,
                            second_joint_id: joint.id,
                        },
                    )
                } else {
                    None
                }
            },
        }
    }
}

/// The first body, in order, that the arcs do not lead to from ground.
pub open spec fn first_unreached_body(bodies: Seq<Body>, arcs: Seq<Arc>) -> Option<BodyId>
    decreases bodies.len(),
{
    if bodies.len() == 0 {
        None
    } else {
        match first_unreached_body(bodies.drop_last(), arcs) {
            Some(id) => Some(id),
            None => if reaches(arc_graph(arcs), 0, bodies.last().id.0) {
                None
            } else {
                Some(bodies.last().id)
            },
        }
    }
}

/// What building the kinematic tree of `bodies` and `joints` gives.
pub open spec fn kinematic_tree_matches(
    bodies: Seq<Body>,
    joints: Seq<Joint>,
    result: Result<KinematicTree, KinematicTreeError>,
) -> bool {
    match first_direction_error(joints) {
        Some(e) => result == Err::<KinematicTree, KinematicTreeError>(e),
        None => match first_unreached_body(bodies, directed_arcs(joints)) {
            Some(body_id) => result == Err::<KinematicTree, KinematicTreeError>(
                KinematicTreeError::UnreachableBody { body_id },
            ),
            None => result matches Ok(tree) && is_breadth_first(
                tree.step_seq().map_values(|s: KinematicTreeStep| step_arc(s)),
                directed_arcs(joints),
            ),
        },
    }
}

proof fn lemma_first_direction_error_prefix(joints: Seq<Joint>, end: int)
    requires
        0 <= end <= joints.len(),
        first_direction_error(joints.take(end)).is_some(),
    ensures
        first_direction_error(joints) == first_direction_error(joints.take(end)),
    decreases joints.len() - end,
{
    if end < joints.len() {
        assert(joints.take(end + 1).drop_last() =~= joints.take(end));
        lemma_first_direction_error_prefix(joints, end + 1);
    } else {
        assert(joints.take(end) =~= joints);
    }
}

proof fn lemma_first_unreached_body_prefix(bodies: Seq<Body>, arcs: Seq<Arc>, end: int)
    requires
        0 <= end <= bodies.len(),
        first_unreached_body(bodies.take(end), arcs).is_some(),
    ensures
        first_unreached_body(bodies, arcs) == first_unreached_body(bodies.take(end), arcs),
    decreases bodies.len() - end,
{
    if end < bodies.len() {
        assert(bodies.take(end + 1).drop_last() =~= bodies.take(end));
        lemma_first_unreached_body_prefix(bodies, arcs, end + 1);
    } else {
        assert(bodies.take(end) =~= bodies);
    }
}

/// The first joint whose J marker is on `child` is the one at `k` when no
/// earlier one is.
proof fn lemma_first_parent_joint(joints: Seq<Joint>, child: BodyId, k: int)
    requires
        0 <= k < joints.len(),
        joints[k].j_marker.body_id == child,
        forall|m: int| 0 <= m < k ==> (#[trigger] joints[m]).j_marker.body_id != child,
    ensures
        has_parent_joint(joints, child),
        first_parent_joint(joints, child) == joints[k],
    decreases joints.len(),
{
    let earlier = joints.drop_last();
    if k == joints.len() - 1 {
        assert(!has_parent_joint(earlier, child)) by {
            if has_parent_joint(earlier, child) {
                let m = choose|m: int| 0 <= m < earlier.len() && (#[trigger] earlier[m]).j_marker.body_id == child;
                assert(joints[m] == earlier[m]);
            }
        }
    } else {
        assert(earlier[k] == joints[k]);
        assert forall|m: int| 0 <= m < k implies (#[trigger] earlier[m]).j_marker.body_id != child by {
            assert(earlier[m] == joints[m]);
        }
        lemma_first_parent_joint(earlier, child, k);
    }
}

/// The position of the first of the first `end` joints whose J marker is on
/// `child`.
fn find_parent_joint(joints: &crate::model::Joints, end: usize, child: BodyId) -> (index: Option<usize>)
    requires
        end <= joints@.len(),
    ensures
        match index {
            Some(k) => k < end && has_parent_joint(joints@.take(end as int), child) && first_parent_joint(
                joints@.take(end as int),
                child,
            ) == joints@[k as int],
            None => !has_parent_joint(joints@.take(end as int), child),
        },
{
    let mut k: usize = 0;
    while k < end
        invariant
            k <= end,
            end <= joints@.len(),
            forall|m: int| 0 <= m < k ==> (#[trigger] joints@[m]).j_marker.body_id != child,
        decreases end - k,
    {
        if joints.at(k).j_marker.body_id == child {
            proof {
                let prefix = joints@.take(end as int);
                assert forall|m: int| 0 <= m < k implies (#[trigger] prefix[m]).j_marker.body_id != child by {
                    assert(prefix[m] == joints@[m]);
                }
                lemma_first_parent_joint(prefix, child, k as int);
            }
            return Some(k);
        }
        k = k + 1;
    }
    proof {
        let prefix = joints@.take(end as int);
        if has_parent_joint(prefix, child) {
            let m = choose|m: int| 0 <= m < prefix.len() && (#[trigger] prefix[m]).j_marker.body_id == child;
            assert(prefix[m] == joints@[m]);
        }
    }
    None
}

/// Whether the breadth-first traversal `out` reached body `id`.
fn was_reached(out: &Vec<Arc>, id: BodyId) -> (found: bool)
    ensures
        found == reached_bodies(out@).contains(id.0),
{
    let ghost reached = reached_bodies(out@);
    assert(reached[0] == 0u32);
    if id.0 == 0 {
        return true;
    }
    let mut k: usize = 0;
    while k < out.len()
        invariant
            k <= out@.len(),
            id.0 != 0,
            reached == reached_bodies(out@),
            forall|m: int| 0 <= m < k ==> (#[trigger] out@[m]).to.0 != id.0,
        decreases out@.len() - k,
    {
        if out[k].to.0 == id.0 {
            assert(reached[k + 1] == out@[k as int].to.0);
            return true;
        }
        k = k + 1;
    }
    assert(!reached.contains(id.0)) by {
        if reached.contains(id.0) {
            let p = choose|p: int| 0 <= p < reached.len() && reached[p] == id.0;
            if p > 0 {
                assert(reached[p] == out@[p - 1].to.0);
            }
        }
    }
    false
}

/// Builds the directed kinematic tree of the model.
///
/// Fails on the first joint, in model order, that makes a body its own
/// parent, makes ground a child or gives a body a second parent, and then on
/// the first body, in model order, that no chain of joints leads to from
/// ground.
pub fn build_kinematic_tree(model: &Model) -> (result: Result<KinematicTree, KinematicTreeError>)
    ensures
        kinematic_tree_matches(model.body_seq(), model.joint_seq(), result),
{
    let joints = model.joints();
    let bodies = model.bodies();
    let ghost js = model.joint_seq();
    let ghost bs = model.body_seq();
    let n = joints.len();
    let mut arcs: Vec<Arc> = Vec::new();
    let mut k: usize = 0;
    while k < n
        invariant
            k <= n,
            n == js.len(),
            joints@ == js,
            js == model.joint_seq(),
            first_direction_error(js.take(k as int)).is_none(),
            forall|a: int, b: int|
                0 <= a < b < k ==> (#[trigger] js[a]).j_marker.body_id != (#[trigger] js[b]).j_marker.body_id,
            arcs@ == directed_arcs(js.take(k as int)),
        decreases n - k,
    {
        let joint = joints.at(k);
        let joint_id = joint.id;
        let parent_id = joint.i_marker.body_id;
        let child_id = joint.j_marker.body_id;
        assert(js.take(k + 1).drop_last() =~= js.take(k as int));
        assert(js.take(k + 1).last() == js[k as int]);
        if parent_id == child_id {
            proof {
                lemma_first_direction_error_prefix(js, (k + 1) as int);
            }
            return Err(KinematicTreeError::SelfParenting { body_id: parent_id, joint_id });
        }
        if child_id.0 == 0 {
            proof {
                lemma_first_direction_error_prefix(js, (k + 1) as int);
            }
            return Err(KinematicTreeError::GroundAsChild { parent_id, joint_id });
        }
        match find_parent_joint(joints, k, child_id) {
            Some(first) => {
                proof {
                    lemma_first_direction_error_prefix(js, (k + 1) as int);
                }
                return Err(
                    KinematicTreeError::DuplicateParent {
                        body_id: child_id,
                        first_joint_id: joints.at(first).id,
                        second_joint_id: joint_id,
                    },
                );
            },
            None => {},
        }
        proof {
            assert forall|a: int| 0 <= a < k implies (#[trigger] js[a]).j_marker.body_id != child_id by {
                assert(js.take(k as int)[a] == js[a]);
            }
        }
        arcs.push(Arc { from: parent_id, to: child_id, joint_id, direction: TraversalDirection::IToJ });
        assert(arcs@ =~= directed_arcs(js.take(k + 1)));
        k = k + 1;
    }
    assert(js.take(n as int) =~= js);
    proof {
        assert forall|a: int, b: int|
            0 <= a < arcs@.len() && 0 <= b < arcs@.len() && a != b && (#[trigger] arcs@[a]).from == (
            #[trigger] arcs@[b]).from implies crate::problem::traversal::arc_key(arcs@[a])
            != crate::problem::traversal::arc_key(arcs@[b]) by {
            if a < b {
                assert(js[a].j_marker.body_id != js[b].j_marker.body_id);
            } else {
                assert(js[b].j_marker.body_id != js[a].j_marker.body_id);
            }
        }
        assert(arcs_unique(arcs@));
    }
    let out = breadth_first(&arcs);
    let body_count = bodies.len();
    let mut b: usize = 0;
    while b < body_count
        invariant
            b <= body_count,
            body_count == bs.len(),
            bodies@ == bs,
            bs == model.body_seq(),
            js == model.joint_seq(),
            first_direction_error(js).is_none(),
            arcs@ == directed_arcs(js),
            is_breadth_first(out@, arcs@),
            first_unreached_body(bs.take(b as int), arcs@).is_none(),
        decreases body_count - b,
    {
        let id = bodies.at(b).id;
        assert(bs.take(b + 1).drop_last() =~= bs.take(b as int));
        assert(bs.take(b + 1).last() == bs[b as int]);
        if !was_reached(&out, id) {
            proof {
                lemma_first_unreached_body_prefix(bs, arcs@, (b + 1) as int);
            }
            return Err(KinematicTreeError::UnreachableBody { body_id: id });
        }
        b = b + 1;
    }
    assert(bs.take(body_count as int) =~= bs);
    proof {
        assert forall|i: int| 0 <= i < out@.len() implies (#[trigger] out@[i]).direction
            == TraversalDirection::IToJ by {
            assert(arcs@.contains(out@[i]));
            let q = choose|q: int| 0 <= q < arcs@.len() && arcs@[q] == out@[i];
            assert(arcs@[q] == directed_arc(js[q]));
        }
    }
    let m = out.len();
    let mut steps: Vec<KinematicTreeStep> = Vec::new();
    let mut s: usize = 0;
    while s < m
        invariant
            s <= m,
            m == out@.len(),
            steps@.len() == s,
            forall|i: int| 0 <= i < s ==> step_arc(#[trigger] steps@[i]) == out@[i],
            forall|i: int| 0 <= i < m ==> (#[trigger] out@[i]).direction == TraversalDirection::IToJ,
        decreases m - s,
    {
        let arc = out[s];
        steps.push(KinematicTreeStep { parent_id: arc.from, child_id: arc.to, joint_id: arc.joint_id });
        s = s + 1;
    }
    let tree = KinematicTree { steps };
    assert(tree.step_seq().map_values(|st: KinematicTreeStep| step_arc(st)) =~= out@);
    Ok(tree)
}

proof fn lemma_first_unreached_body_none(bodies: Seq<Body>, arcs: Seq<Arc>)
    requires
        first_unreached_body(bodies, arcs).is_none(),
    ensures
        forall|a: int| 0 <= a < bodies.len() ==> reaches(arc_graph(arcs), 0, (#[trigger] bodies[a]).id.0),
    decreases bodies.len(),
{
    if bodies.len() > 0 {
        let init = bodies.drop_last();
        lemma_first_unreached_body_none(init, arcs);
        assert forall|a: int| 0 <= a < bodies.len() implies reaches(arc_graph(arcs), 0, (#[trigger] bodies[a]).id.0) by {
            if a < init.len() {
                assert(init[a] == bodies[a]);
            }
        }
    }
}

/// The steps of the kinematic tree reach every body of the model, each
/// exactly once, and each step follows a joint from its I body to its J body.
pub proof fn lemma_kinematic_tree_spans_model(bodies: Seq<Body>, joints: Seq<Joint>, tree: KinematicTree)
    requires
        kinematic_tree_matches(bodies, joints, Ok(tree)),
    ensures
        forall|a: int| 0 <= a < bodies.len() ==> reached_bodies(
            tree.step_seq().map_values(|s: KinematicTreeStep| step_arc(s)),
        ).contains(#[trigger] bodies[a].id.0),
        reached_bodies(tree.step_seq().map_values(|s: KinematicTreeStep| step_arc(s))).no_duplicates(),
        forall|k: int|
            0 <= k < tree.step_seq().len() ==> exists|q: int|
                0 <= q < joints.len() && directed_arc(joints[q]) == step_arc(#[trigger] tree.step_seq()[k]),
{
    let out = tree.step_seq().map_values(|s: KinematicTreeStep| step_arc(s));
    lemma_first_unreached_body_none(bodies, directed_arcs(joints));
    assert forall|k: int| 0 <= k < tree.step_seq().len() implies exists|q: int|
        0 <= q < joints.len() && directed_arc(joints[q]) == step_arc(#[trigger] tree.step_seq()[k]) by {
        assert(out[k] == step_arc(tree.step_seq()[k]));
        assert(directed_arcs(joints).contains(out[k]));
        let q = choose|q: int| 0 <= q < directed_arcs(joints).len() && directed_arcs(joints)[q] == out[k];
        assert(directed_arcs(joints)[q] == directed_arc(joints[q]));
    }
}

/// Why the joints of a model do not form a directed tree rooted at ground.
#[derive(Debug, PartialEq, Eq, Structural)]
#[non_exhaustive]
pub enum KinematicTreeError {
    SelfParenting { body_id: BodyId, joint_id: JointId },
    GroundAsChild { parent_id: BodyId, joint_id: JointId },
    DuplicateParent { body_id: BodyId, first_joint_id: JointId, second_joint_id: JointId },
    UnreachableBody { body_id: BodyId },
}

/// The message that reports `e`.
pub open spec fn kinematic_tree_error_text(e: KinematicTreeError) -> Seq<char> {
    match e {
        KinematicTreeError::SelfParenting { body_id, joint_id } => "joint `"@ + joint_id_text(joint_id)
            + "` makes body `"@ + body_id_text(body_id) + "` its own parent"@,
        KinematicTreeError::GroundAsChild { parent_id, joint_id } => "joint `"@ + joint_id_text(joint_id)
            + "` makes ground a child of body `"@ + body_id_text(parent_id) + "`"@,
        KinematicTreeError::DuplicateParent { body_id, first_joint_id, second_joint_id } => "body `"@
            + body_id_text(body_id) + "` has parent joints `"@ + joint_id_text(first_joint_id) + "` and `"@
            + joint_id_text(second_joint_id) + "`"@,
        KinematicTreeError::UnreachableBody { body_id } => "body `"@ + body_id_text(body_id)
            + "` is not reachable from ground through directed joints"@,
    }
}

impl KinematicTreeError {
    /// The message that reports the error.
    pub fn message(&self) -> (text: String)
        ensures
            text@ == kinematic_tree_error_text(*self),
    {
        let mut text = String::new();
        match self {
            KinematicTreeError::SelfParenting { body_id, joint_id } => {
                push_str(&mut text, "joint `");
                push_joint_id(&mut text, *joint_id);
                push_str(&mut text, "` makes body `");
                push_body_id(&mut text, *body_id);
                push_str(&mut text, "` its own parent");
            },
            KinematicTreeError::GroundAsChild { parent_id, joint_id } => {
                push_str(&mut text, "joint `");
                push_joint_id(&mut text, *joint_id);
                push_str(&mut text, "` makes ground a child of body `");
                push_body_id(&mut text, *parent_id);
                push_str(&mut text, "`");
            },
            KinematicTreeError::DuplicateParent { body_id, first_joint_id, second_joint_id } => {
                push_str(&mut text, "body `");
                push_body_id(&mut text, *body_id);
                push_str(&mut text, "` has parent joints `");
                push_joint_id(&mut text, *first_joint_id);
                push_str(&mut text, "` and `");
                push_joint_id(&mut text, *second_joint_id);
                push_str(&mut text, "`");
            },
            KinematicTreeError::UnreachableBody { body_id } => {
                push_str(&mut text, "body `");
                push_body_id(&mut text, *body_id);
                push_str(&mut text, "` is not reachable from ground through directed joints");
            },
        }
        text
    }
}


/// Without a direction error, no two joints share a child body.
proof fn lemma_single_parent(joints: Seq<Joint>, a: int, b: int)
    requires
        first_direction_error(joints).is_none(),
        0 <= a < joints.len(),
        0 <= b < joints.len(),
        joints[a].j_marker.body_id == joints[b].j_marker.body_id,
    ensures
        a == b,
    decreases joints.len(),
{
    let init = joints.drop_last();
    let last = joints.len() - 1;
    if a < last && b < last {
        lemma_single_parent(init, a, b);
    } else if a != b {
        let other = if a == last { b } else { a };
        assert(init[other] == joints[other]);
        assert(has_parent_joint(init, joints[last].j_marker.body_id));
    }
}

/// Lists of joints with the same arcs, in whatever order.
pub open spec fn same_directed_arcs(a: Seq<Joint>, b: Seq<Joint>) -> bool {
    &&& forall|i: int| 0 <= i < a.len() ==> directed_arcs(b).contains(#[trigger] directed_arc(a[i]))
    &&& forall|i: int| 0 <= i < b.len() ==> directed_arcs(a).contains(#[trigger] directed_arc(b[i]))
}

/// Whatever the arcs of `ja` connect, those of `jb` connect too.
proof fn lemma_same_arcs_reach(ja: Seq<Joint>, jb: Seq<Joint>, x: u32)
    requires
        same_directed_arcs(ja, jb),
        reaches(arc_graph(directed_arcs(ja)), 0, x),
    ensures
        reaches(arc_graph(directed_arcs(jb)), 0, x),
{
    let arcs_a = directed_arcs(ja);
    let arcs_b = directed_arcs(jb);
    assert forall|u: u32, v: u32| #[trigger] arc_graph(arcs_a)(u, v) implies arc_graph(arcs_b)(u, v) by {
        let q = choose|q: int| 0 <= q < arcs_a.len() && (#[trigger] arcs_a[q]).from.0 == u && arcs_a[q].to.0 == v;
        assert(arcs_a[q] == directed_arc(ja[q]));
        assert(arcs_b.contains(directed_arc(ja[q])));
        let r = choose|r: int| 0 <= r < arcs_b.len() && arcs_b[r] == directed_arc(ja[q]);
        assert(arcs_b[r].from.0 == u && arcs_b[r].to.0 == v);
    }
    lemma_reaches_mono(arc_graph(arcs_a), arc_graph(arcs_b), 0, x);
}

/// Each arc that a traversal of one list of joints emits, a traversal of
/// a list of the same joints emits too, when every body has one parent.
proof fn lemma_tree_traversal_emits(o1: Seq<Arc>, o2: Seq<Arc>, j1: Seq<Joint>, j2: Seq<Joint>, k: int)
    requires
        is_breadth_first(o1, directed_arcs(j1)),
        is_breadth_first(o2, directed_arcs(j2)),
        first_direction_error(j2).is_none(),
        same_directed_arcs(j1, j2),
        0 <= k < o1.len(),
    ensures
        o2.contains(o1[k]),
{
    let arcs1 = directed_arcs(j1);
    let arcs2 = directed_arcs(j2);
    let r1 = reached_bodies(o1);
    let r2 = reached_bodies(o2);
    lemma_reached_push(o1, arbitrary());
    lemma_reached_push(o2, arbitrary());
    let a = o1[k];
    assert(r1[k + 1] == a.to.0);
    assert(r1.contains(a.to.0));
    lemma_same_arcs_reach(j1, j2, a.to.0);
    assert(r2.contains(a.to.0));
    let p = choose|p: int| 0 <= p < r2.len() && r2[p] == a.to.0;
    assert(r1[0] == a.to.0 ==> false);
    assert(p != 0);
    let b = o2[p - 1];
    assert(b.to.0 == a.to.0);
    assert(arcs1.contains(a));
    let q1 = choose|q: int| 0 <= q < arcs1.len() && arcs1[q] == a;
    assert(arcs1[q1] == directed_arc(j1[q1]));
    assert(arcs2.contains(directed_arc(j1[q1])));
    assert(arcs2.contains(b));
    let qa = choose|q: int| 0 <= q < arcs2.len() && arcs2[q] == a;
    let qb = choose|q: int| 0 <= q < arcs2.len() && arcs2[q] == b;
    assert(arcs2[qa] == directed_arc(j2[qa]));
    assert(arcs2[qb] == directed_arc(j2[qb]));
    lemma_single_parent(j2, qa, qb);
    assert(o2[p - 1] == a);
}

/// The kinematic tree depends only on which joints there are: lists of the
/// same joints (by identifier, parent body and child body), in any order and
/// under any names, give the same steps.
pub proof fn lemma_kinematic_tree_ignores_joint_order(
    bodies1: Seq<Body>,
    joints1: Seq<Joint>,
    tree1: KinematicTree,
    bodies2: Seq<Body>,
    joints2: Seq<Joint>,
    tree2: KinematicTree,
)
    requires
        kinematic_tree_matches(bodies1, joints1, Ok(tree1)),
        kinematic_tree_matches(bodies2, joints2, Ok(tree2)),
        same_directed_arcs(joints1, joints2),
    ensures
        tree1.step_seq() == tree2.step_seq(),
{
    let o1 = tree1.step_seq().map_values(|s: KinematicTreeStep| step_arc(s));
    let o2 = tree2.step_seq().map_values(|s: KinematicTreeStep| step_arc(s));
    assert(same_directed_arcs(joints2, joints1));
    assert forall|i: int| 0 <= i < o1.len() implies #[trigger] emits_either_way(o2, o1[i]) by {
        lemma_tree_traversal_emits(o1, o2, joints1, joints2, i);
        let l = choose|l: int| 0 <= l < o2.len() && o2[l] == o1[i];
        assert(o2[l] == o1[i]);
    }
    assert forall|i: int| 0 <= i < o2.len() implies #[trigger] emits_either_way(o1, o2[i]) by {
        lemma_tree_traversal_emits(o2, o1, joints2, joints1, i);
        let l = choose|l: int| 0 <= l < o1.len() && o1[l] == o2[i];
        assert(o1[l] == o2[i]);
    }
    lemma_breadth_first_unique(o1, o2, directed_arcs(joints1), directed_arcs(joints2));
    assert forall|i: int| 0 <= i < tree1.step_seq().len() implies tree1.step_seq()[i] == tree2.step_seq()[i] by {
        assert(o1[i] == o2[i]);
    }
    assert(tree1.step_seq() =~= tree2.step_seq());
}

} // verus!
