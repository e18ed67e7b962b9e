//! Preparation of an input for solving: the topology of its model and the
//! assignment of its motions to joints.
use vstd::prelude::*;

pub mod coordinates;
pub mod traversal;
pub mod tree;

use crate::model::{BodyId, Input, JointId, Model, first_free_body, has_joint, valid_model};
use crate::problem::coordinates::{
    JointCoordinate, JointCoordinateError, JointCoordinates, coordinate_error_text, coordinates_match, motion_error,
    resolve_joint_coordinates,
};
use crate::problem::traversal::{Arc, is_breadth_first};
use crate::problem::tree::{
    KinematicTopology, KinematicTopologyError, TraversalDirection, build_kinematic_topology, joint_ids,
    topology_error_text,
    lemma_tree_traversal_unique, partition_spec, role_order_of, topology_matches, tree_arcs,
};

verus! {

/// One step of the spanning tree, with the coordinate of its joint.
#[derive(Debug)]
pub struct PreparedTreeEdge {
    parent_body_id: BodyId,
    child_body_id: BodyId,
    joint_id: JointId,
    joint_coordinate: JointCoordinate,
    direction: TraversalDirection,
}

impl View for PreparedTreeEdge {
    type V = (Arc, JointCoordinate);

    /// The edge as an arc from parent to child, and the coordinate of its joint.
    closed spec fn view(&self) -> (Arc, JointCoordinate) {
        (
            Arc {
                from: self.parent_body_id,
                to: self.child_body_id,
                joint_id: self.joint_id,
                direction: self.direction,
            },
            self.joint_coordinate,
        )
    }
}

impl PreparedTreeEdge {
    pub fn parent_body_id(&self) -> (id: BodyId)
        ensures
            id == self@.0.from,
    {
        self.parent_body_id
    }

    pub fn child_body_id(&self) -> (id: BodyId)
        ensures
            id == self@.0.to,
    {
        self.child_body_id
    }

    pub fn joint_id(&self) -> (id: JointId)
        ensures
            id == self@.0.joint_id,
    {
        self.joint_id
    }

    pub fn joint_coordinate(&self) -> (coordinate: JointCoordinate)
        ensures
            coordinate == self@.1,
    {
        self.joint_coordinate
    }

    pub fn direction(&self) -> (direction: TraversalDirection)
        ensures
            direction == self@.0.direction,
    {
        self.direction
    }
}

/// An input whose topology and motions have been checked, ready for solving.
pub struct PreparedProblem {
    input: Input,
    joint_coordinates: JointCoordinates,
    tree_edges: Vec<PreparedTreeEdge>,
    closure_joint_ids: Vec<JointId>,
}

impl PreparedProblem {
    /// The input the problem was prepared from.
    pub closed spec fn spec_input(&self) -> Input {
        self.input
    }

    /// The coordinate of every joint, in model order.
    pub closed spec fn coordinate_seq(&self) -> Seq<JointCoordinate> {
        self.joint_coordinates@
    }

    /// The spanning-tree edges in parent-before-child order.
    pub closed spec fn edge_seq(&self) -> Seq<(Arc, JointCoordinate)> {
        self.tree_edges@.map_values(|e: PreparedTreeEdge| e@)
    }

    /// The joints that close loops.
    pub closed spec fn closure_id_seq(&self) -> Seq<JointId> {
        self.closure_joint_ids@
    }

    pub fn model(&self) -> (model: &Model)
        ensures
            *model == self.spec_input().spec_model(),
    {
        self.input.model()
    }

    pub fn tree_edges(&self) -> (edges: &[PreparedTreeEdge])
        ensures
            edges@.map_values(|e: PreparedTreeEdge| e@) == self.edge_seq(),
    {
        self.tree_edges.as_slice()
    }

    pub fn closure_joint_ids(&self) -> (ids: &[JointId])
        ensures
            ids@ == self.closure_id_seq(),
    {
        self.closure_joint_ids.as_slice()
    }

    /// The coordinate of joint `joint_id`.
    pub fn joint_coordinate(&self, joint_id: JointId) -> (coordinate: Option<&JointCoordinate>)
        ensures
            match coordinate {
                Some(c) => c.joint_id == joint_id && self.coordinate_seq().contains(*c),
                None => forall|k: int|
                    0 <= k < self.coordinate_seq().len() ==> (#[trigger] self.coordinate_seq()[k]).joint_id
                        != joint_id,
            },
    {
        self.joint_coordinates.get(joint_id)
    }
}

/// What preparing `input` gives: the first topology error, else the first
/// motion error, else the problem whose tree edges are the breadth-first
/// spanning tree of the tree joints, each with the coordinate of its joint,
/// and whose closure joints are those the partition leaves out of the tree.
pub open spec fn prepare_matches(input: Input, result: Result<PreparedProblem, PrepareError>) -> bool {
    let bodies = input.spec_model().body_seq();
    let joints = input.spec_model().joint_seq();
    let motions = input.motion_seq();
    let outcome = partition_spec(role_order_of(joints));
    match outcome.2 {
        Some(joint_id) => result == Err::<PreparedProblem, PrepareError>(
            PrepareError::Topology(KinematicTopologyError::TreeJointCycle { joint_id }),
        ),
        None => match first_free_body(bodies, outcome.0) {
            Some(body_id) => result == Err::<PreparedProblem, PrepareError>(
                PrepareError::Topology(KinematicTopologyError::UnreachableTreeBody { body_id }),
            ),
            None => match motion_error(joints, motions) {
                Some(e) => result == Err::<PreparedProblem, PrepareError>(PrepareError::Coordinates(e)),
                None => result matches Ok(problem) && problem.spec_input() == input
                    && problem.closure_id_seq() == joint_ids(outcome.1) && is_breadth_first(
                    problem.edge_seq().map_values(|e: (Arc, JointCoordinate)| e.0),
                    tree_arcs(outcome.0),
                ) && coordinates_match(joints, motions, problem.coordinate_seq()) && forall|k: int|
                    0 <= k < problem.edge_seq().len() ==> (#[trigger] problem.edge_seq()[k]).1.joint_id
                        == problem.edge_seq()[k].0.joint_id && problem.coordinate_seq().contains(
                        problem.edge_seq()[k].1,
                    ),
            },
        },
    }
}

/// Builds the topology of the model, then assigns the motions to joints.
pub fn prepare(input: Input) -> (result: Result<PreparedProblem, PrepareError>)
    ensures
        prepare_matches(input, result),
{
    let topology = match build_kinematic_topology(input.model()) {
        Ok(topology) => topology,
        Err(e) => {
            return Err(PrepareError::Topology(e));
        },
    };
    let coordinates = match resolve_joint_coordinates(&input) {
        Ok(coordinates) => coordinates,
        Err(e) => {
            return Err(PrepareError::Coordinates(e));
        },
    };
    let ghost joints = input.spec_model().joint_seq();
    let ghost motions = input.motion_seq();
    let edges = topology.tree_edges();
    let n = edges.len();
    let mut tree_edges: Vec<PreparedTreeEdge> = Vec::new();
    let mut k: usize = 0;
    while k < n
        invariant
            k <= n,
            n == edges@.len(),
            edge_arcs_of(edges@) == topology.tree_edge_arcs(),
            joints == input.spec_model().joint_seq(),
            motions == input.motion_seq(),
            coordinates_match(joints, motions, coordinates@),
            forall|m: int|
                0 <= m < topology.tree_edge_arcs().len() ==> has_joint(
                    joints,
                    (#[trigger] topology.tree_edge_arcs()[m]).joint_id,
                ),
            tree_edges@.len() == k,
            forall|m: int|
                0 <= m < k ==> (#[trigger] tree_edges@[m])@.0 == topology.tree_edge_arcs()[m]
                    && tree_edges@[m]@.1.joint_id == tree_edges@[m]@.0.joint_id && coordinates@.contains(
                    tree_edges@[m]@.1,
                ),
        decreases n - k,
    {
        let edge = &edges[k];
        let joint_id = edge.joint_id();
        assert(edge_arcs_of(edges@)[k as int] == edges@[k as int]@);
        let joint_coordinate = match coordinates.get(joint_id) {
            Some(coordinate) => *coordinate,
            None => {
                proof {
                    assert(has_joint(joints, topology.tree_edge_arcs()[k as int].joint_id));
                    let q = choose|q: int| 0 <= q < joints.len() && (#[trigger] joints[q]).id == joint_id;
                    assert(coordinates@[q].joint_id == joint_id);
                }
                JointCoordinate { joint_id, motion_index: None }
            },
        };
        tree_edges.push(
            PreparedTreeEdge {
                parent_body_id: edge.parent_body_id(),
                child_body_id: edge.child_body_id(),
                joint_id,
                joint_coordinate,
                direction: edge.direction(),
            },
        );
        k = k + 1;
    }
    let closure_joint_ids = copy_joint_ids(topology.closure_joint_ids());
    let problem = PreparedProblem { input, joint_coordinates: coordinates, tree_edges, closure_joint_ids };
    proof {
        let arcs = problem.edge_seq().map_values(|e: (Arc, JointCoordinate)| e.0);
        assert(arcs =~= topology.tree_edge_arcs());
    }
    Ok(problem)
}

/// A copy of a sequence of joint identifiers.
fn copy_joint_ids(ids: &[JointId]) -> (copy: Vec<JointId>)
    ensures
        copy@ == ids@,
{
    let mut copy: Vec<JointId> = Vec::new();
    let mut k: usize = 0;
    while k < ids.len()
        invariant
            k <= ids@.len(),
            copy@ == ids@.take(k as int),
        decreases ids@.len() - k,
    {
        copy.push(ids[k]);
        assert(ids@.take(k + 1) =~= ids@.take(k as int).push(ids@[k as int]));
        k = k + 1;
    }
    assert(ids@.take(ids@.len() as int) =~= ids@);
    copy
}

/// The arcs of a sequence of tree edges.
spec fn edge_arcs_of(edges: Seq<crate::problem::tree::TreeEdge>) -> Seq<Arc> {
    edges.map_values(|e: crate::problem::tree::TreeEdge| e@)
}

/// Why an input cannot be prepared for solving.
#[derive(Debug, PartialEq, Eq)]
#[non_exhaustive]
pub enum PrepareError {
    Topology(KinematicTopologyError),
    Coordinates(JointCoordinateError),
}

/// The message that reports `e`: that of the error it carries.
pub open spec fn prepare_error_text(e: PrepareError) -> Seq<char> {
    match e {
        PrepareError::Topology(e) => topology_error_text(e),
        PrepareError::Coordinates(e) => coordinate_error_text(e),
    }
}

impl PrepareError {
    /// The message that reports the error.
    pub fn message(&self) -> (text: String)
        ensures
            text@ == prepare_error_text(*self),
    {
        match self {
            PrepareError::Topology(e) => e.message(),
            PrepareError::Coordinates(e) => e.message(),
        }
    }
}


/// `prepare` copies the topology of its model: where `prepare` and
/// `build_kinematic_topology` both succeed on a valid model, the prepared
/// tree edges are the topology's edges, one for one and in the same order,
/// each with the coordinate of its joint, and the closure joints are the
/// topology's.
pub proof fn lemma_prepare_copies_topology(input: Input, problem: PreparedProblem, topology: KinematicTopology)
    requires
        valid_model(input.spec_model().body_seq(), input.spec_model().joint_seq()),
        prepare_matches(input, Ok(problem)),
        topology_matches(
            input.spec_model().body_seq(),
            partition_spec(role_order_of(input.spec_model().joint_seq())),
            Ok(topology),
        ),
    ensures
        problem.edge_seq().len() == topology.tree_edge_arcs().len(),
        forall|k: int|
            0 <= k < problem.edge_seq().len() ==> (#[trigger] problem.edge_seq()[k]).0
                == topology.tree_edge_arcs()[k] && problem.edge_seq()[k].1.joint_id
                == topology.tree_edge_arcs()[k].joint_id,
        problem.closure_id_seq() == topology.closure_id_seq(),
{
    let bodies = input.spec_model().body_seq();
    let joints = input.spec_model().joint_seq();
    let arcs = problem.edge_seq().map_values(|e: (Arc, JointCoordinate)| e.0);
    lemma_tree_traversal_unique(bodies, joints, arcs, topology.tree_edge_arcs());
    assert forall|k: int| 0 <= k < problem.edge_seq().len() implies (#[trigger] problem.edge_seq()[k]).0
        == topology.tree_edge_arcs()[k] by {
        assert(arcs[k] == problem.edge_seq()[k].0);
    }
}

} // verus!
