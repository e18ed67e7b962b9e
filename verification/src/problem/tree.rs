//! Topological representation of the mechanism.
//!
//! The mechanism is decomposed into
//!
//!  - a rooted spanning tree used for forward traversal from ground, and
//!  - closure joints representing edges that would introduce cycles.
//!
//! For an open-chain mechanism there are no closure joints. For a closed-loop
//! mechanism, one or more joints are closure joints.
use vstd::prelude::*;

use crate::graph::{
    components, is_symmetric, lemma_components_apart, lemma_components_merge, lemma_components_one,
    lemma_distinct_indices_bound, lemma_reaches_refl, lemma_reaches_symmetric, lemma_reaches_trans,
    lemma_with_edge_reaches, reaches, walk_step, is_walk, with_edge,
};
use crate::model::{
    Body, BodyId, Joint, JointId, JointRole, Model, connected_to_ground, first_free_body,
    joint_graph, joint_links, i_body, j_body, distinct_joint_ids, distinct_body_ids, has_body,
    lemma_first_free_body_none, lemma_first_joint_error_none, joint_reference_error,
    first_joint_error, model_error, valid_model, has_joint, body_id_text, joint_id_text, push_body_id,
    push_joint_id,
};
use crate::text::push_str;
use crate::problem::traversal::{
    Arc, arc_graph, breadth_first, covers, emits_either_way, is_breadth_first, arcs_unique, arc_key,
    lemma_breadth_first_unique, lemma_reached_push, reached_bodies,
};

verus! {

/// Direction in which a joint is traversed relative to its I/J markers.
#[derive(Clone, Copy, Debug, PartialEq, Eq, Structural)]
pub enum TraversalDirection {
    IToJ,
    JToI,
}

/// The order in which joints are considered for the spanning tree: primary
/// joints first, then the others, each group by ascending joint identifier.
pub open spec fn role_key(joint: Joint) -> int {
    (if joint.role == JointRole::Primary {
        0int
    } else {
        1int
    }) * 0x1_0000_0000 + joint.id.0 as int
}

/// `order` holds the joints of `joints` in ascending role order.
pub open spec fn is_role_order(order: Seq<Joint>, joints: Seq<Joint>) -> bool {
    &&& order.len() == joints.len()
    &&& forall|a: int, b: int| 0 <= a < b < order.len() ==> role_key(#[trigger] order[a]) < role_key(#[trigger] order[b])
    &&& forall|k: int| 0 <= k < joints.len() ==> order.contains(#[trigger] joints[k])
    &&& forall|k: int| 0 <= k < order.len() ==> joints.contains(#[trigger] order[k])
}

/// The joints of `joints` in role order.
pub open spec fn role_order_of(joints: Seq<Joint>) -> Seq<Joint> {
    choose|order: Seq<Joint>| is_role_order(order, joints)
}

/// `s` is strictly ascending in role key.
pub open spec fn role_sorted(s: Seq<Joint>) -> bool {
    forall|a: int, b: int| 0 <= a < b < s.len() ==> role_key(#[trigger] s[a]) < role_key(#[trigger] s[b])
}

/// Two sequences strictly ascending in role key that hold the same joints are
/// equal.
proof fn lemma_role_sorted_same_elements(a: Seq<Joint>, b: Seq<Joint>)
    requires
        role_sorted(a),
        role_sorted(b),
        forall|x: Joint| a.contains(x) <==> b.contains(x),
    ensures
        a == b,
    decreases a.len(),
{
    if a.len() == 0 {
        if b.len() > 0 {
            assert(b.contains(b[0]));
        }
        assert(a =~= b);
    } else if b.len() == 0 {
        assert(a.contains(a[0]));
    } else {
        assert(a.contains(a[0]));
        assert(b.contains(b[0]));
        let k = choose|k: int| 0 <= k < b.len() && b[k] == a[0];
        let m = choose|m: int| 0 <= m < a.len() && a[m] == b[0];
        if k > 0 {
            assert(role_key(b[0]) < role_key(b[k]));
            if m > 0 {
                assert(role_key(a[0]) < role_key(a[m]));
            }
        }
        assert(a[0] == b[0]);
        let a2 = a.drop_first();
        let b2 = b.drop_first();
        assert forall|x: Joint| a2.contains(x) <==> b2.contains(x) by {
            if a2.contains(x) {
                let i = choose|i: int| 0 <= i < a2.len() && a2[i] == x;
                assert(a[i + 1] == x);
                assert(role_key(a[0]) < role_key(a[i + 1]));
                assert(a.contains(x));
                let j = choose|j: int| 0 <= j < b.len() && b[j] == x;
                assert(j != 0);
                assert(b2[j - 1] == x);
            }
            if b2.contains(x) {
                let i = choose|i: int| 0 <= i < b2.len() && b2[i] == x;
                assert(b[i + 1] == x);
                assert(role_key(b[0]) < role_key(b[i + 1]));
                assert(b.contains(x));
                let j = choose|j: int| 0 <= j < a.len() && a[j] == x;
                assert(j != 0);
                assert(a2[j - 1] == x);
            }
        }
        assert(role_sorted(a2)) by {
            assert forall|i: int, j: int| 0 <= i < j < a2.len() implies role_key(#[trigger] a2[i]) < role_key(
                #[trigger] a2[j],
            ) by {
                assert(a2[i] == a[i + 1] && a2[j] == a[j + 1]);
            }
        }
        assert(role_sorted(b2)) by {
            assert forall|i: int, j: int| 0 <= i < j < b2.len() implies role_key(#[trigger] b2[i]) < role_key(
                #[trigger] b2[j],
            ) by {
                assert(b2[i] == b[i + 1] && b2[j] == b[j + 1]);
            }
        }
        lemma_role_sorted_same_elements(a2, b2);
        assert(a =~= b) by {
            assert forall|i: int| 0 <= i < a.len() implies a[i] == b[i] by {
                if i > 0 {
                    assert(a[i] == a2[i - 1] && b[i] == b2[i - 1]);
                }
            }
        }
    }
}

/// There is only one role order of a sequence of joints.
pub proof fn lemma_role_order_unique(a: Seq<Joint>, b: Seq<Joint>, joints: Seq<Joint>)
    requires
        is_role_order(a, joints),
        is_role_order(b, joints),
    ensures
        a == b,
{
    assert forall|x: Joint| a.contains(x) <==> b.contains(x) by {
        if a.contains(x) {
            let i = choose|i: int| 0 <= i < a.len() && a[i] == x;
            assert(joints.contains(a[i]));
        }
        if b.contains(x) {
            let i = choose|i: int| 0 <= i < b.len() && b[i] == x;
            assert(joints.contains(b[i]));
        }
    }
    lemma_role_sorted_same_elements(a, b);
}

/// `x` put into `o` at the place its role key calls for.
spec fn insert_by_role(o: Seq<Joint>, x: Joint) -> Seq<Joint>
    decreases o.len(),
{
    if o.len() == 0 {
        seq![x]
    } else if role_key(x) < role_key(o[0]) {
        seq![x] + o
    } else {
        seq![o[0]] + insert_by_role(o.drop_first(), x)
    }
}

proof fn lemma_insert_by_role(o: Seq<Joint>, x: Joint)
    requires
        role_sorted(o),
        forall|i: int| 0 <= i < o.len() ==> role_key(#[trigger] o[i]) != role_key(x),
    ensures
        role_sorted(insert_by_role(o, x)),
        insert_by_role(o, x).len() == o.len() + 1,
        forall|y: Joint| #[trigger] insert_by_role(o, x).contains(y) <==> (o.contains(y) || y == x),
    decreases o.len(),
{
    let r = insert_by_role(o, x);
    if o.len() == 0 {
        assert forall|y: Joint| #[trigger] r.contains(y) <==> (o.contains(y) || y == x) by {
            if r.contains(y) {
                assert(r[0] == y);
            }
            if y == x {
                assert(r[0] == x);
            }
        }
    } else if role_key(x) < role_key(o[0]) {
        assert forall|i: int, j: int| 0 <= i < j < r.len() implies role_key(#[trigger] r[i]) < role_key(
            #[trigger] r[j],
        ) by {
            if i > 0 {
                assert(r[i] == o[i - 1] && r[j] == o[j - 1]);
            } else {
                assert(r[j] == o[j - 1]);
                if j > 1 {
                    assert(role_key(o[0]) < role_key(o[j - 1]));
                }
            }
        }
        assert forall|y: Joint| #[trigger] r.contains(y) <==> (o.contains(y) || y == x) by {
            if r.contains(y) {
                let i = choose|i: int| 0 <= i < r.len() && r[i] == y;
                if i > 0 {
                    assert(o[i - 1] == y);
                }
            }
            if o.contains(y) {
                let i = choose|i: int| 0 <= i < o.len() && o[i] == y;
                assert(r[i + 1] == y);
            }
            if y == x {
                assert(r[0] == x);
            }
        }
    } else {
        let rest = o.drop_first();
        assert(role_sorted(rest)) by {
            assert forall|i: int, j: int| 0 <= i < j < rest.len() implies role_key(#[trigger] rest[i])
                < role_key(#[trigger] rest[j]) by {
                assert(rest[i] == o[i + 1] && rest[j] == o[j + 1]);
            }
        }
        assert forall|i: int| 0 <= i < rest.len() implies role_key(#[trigger] rest[i]) != role_key(x) by {
            assert(rest[i] == o[i + 1]);
        }
        lemma_insert_by_role(rest, x);
        let tail = insert_by_role(rest, x);
        assert(role_key(o[0]) != role_key(x));
        assert forall|i: int| 0 <= i < tail.len() implies role_key(o[0]) < role_key(#[trigger] tail[i]) by {
            assert(tail.contains(tail[i]));
            if tail[i] != x {
                let m = choose|m: int| 0 <= m < rest.len() && rest[m] == tail[i];
                assert(rest[m] == o[m + 1]);
            }
        }
        assert forall|i: int, j: int| 0 <= i < j < r.len() implies role_key(#[trigger] r[i]) < role_key(
            #[trigger] r[j],
        ) by {
            assert(r[j] == tail[j - 1]);
            if i > 0 {
                assert(r[i] == tail[i - 1]);
            }
        }
        assert forall|y: Joint| #[trigger] r.contains(y) <==> (o.contains(y) || y == x) by {
            if r.contains(y) {
                let i = choose|i: int| 0 <= i < r.len() && r[i] == y;
                if i > 0 {
                    assert(tail[i - 1] == y);
                    assert(tail.contains(y));
                    if rest.contains(y) {
                        let m = choose|m: int| 0 <= m < rest.len() && rest[m] == y;
                        assert(o[m + 1] == y);
                    }
                }
            }
            if o.contains(y) {
                let i = choose|i: int| 0 <= i < o.len() && o[i] == y;
                if i > 0 {
                    assert(rest[i - 1] == y);
                    assert(tail.contains(y));
                    let m = choose|m: int| 0 <= m < tail.len() && tail[m] == y;
                    assert(r[m + 1] == y);
                } else {
                    assert(r[0] == y);
                }
            }
            if y == x {
                assert(tail.contains(x));
                let m = choose|m: int| 0 <= m < tail.len() && tail[m] == x;
                assert(r[m + 1] == x);
            }
        }
    }
}

/// Joints with distinct identifiers have a role order.
pub proof fn lemma_role_order_exists(joints: Seq<Joint>)
    requires
        distinct_joint_ids(joints),
    ensures
        is_role_order(role_order_of(joints), joints),
    decreases joints.len(),
{
    if joints.len() == 0 {
        assert(is_role_order(Seq::<Joint>::empty(), joints));
    } else {
        let init = joints.drop_last();
        let x = joints.last();
        assert(distinct_joint_ids(init)) by {
            assert forall|a: int, b: int|
                0 <= a < init.len() && 0 <= b < init.len() && a != b implies (#[trigger] init[a]).id
                != (#[trigger] init[b]).id by {
                assert(init[a] == joints[a] && init[b] == joints[b]);
            }
        }
        lemma_role_order_exists(init);
        let o = role_order_of(init);
        assert forall|i: int| 0 <= i < o.len() implies role_key(#[trigger] o[i]) != role_key(x) by {
            assert(init.contains(o[i]));
            let m = choose|m: int| 0 <= m < init.len() && init[m] == o[i];
            assert(joints[m] == o[i]);
            assert(joints[m].id != joints[joints.len() - 1].id);
        }
        lemma_insert_by_role(o, x);
        let r = insert_by_role(o, x);
        assert forall|k: int| 0 <= k < joints.len() implies r.contains(#[trigger] joints[k]) by {
            if k < init.len() {
                assert(init[k] == joints[k]);
                assert(o.contains(init[k]));
            }
        }
        assert forall|k: int| 0 <= k < r.len() implies joints.contains(#[trigger] r[k]) by {
            assert(r.contains(r[k]));
            if r[k] != x {
                assert(init.contains(r[k]));
                let m = choose|m: int| 0 <= m < init.len() && init[m] == r[k];
                assert(joints[m] == r[k]);
            } else {
                assert(joints[joints.len() - 1] == x);
            }
        }
        assert(is_role_order(r, joints));
    }
}

/// Which joints form the tree, which close loops, and which primary joint, if
/// any, would close a loop of tree joints depend only on the joints of a
/// model, not on the order in which they are listed.
pub proof fn lemma_partition_ignores_listing_order(a: Seq<Joint>, b: Seq<Joint>)
    requires
        distinct_joint_ids(a),
        distinct_joint_ids(b),
        forall|x: Joint| a.contains(x) <==> b.contains(x),
    ensures
        role_order_of(a) == role_order_of(b),
        partition_spec(role_order_of(a)) == partition_spec(role_order_of(b)),
{
    lemma_role_order_exists(a);
    lemma_role_order_exists(b);
    let oa = role_order_of(a);
    assert(a.no_duplicates()) by {
        assert forall|i: int, j: int| 0 <= i < a.len() && 0 <= j < a.len() && i != j implies a[i] != a[j] by {
            assert(a[i].id != a[j].id);
        }
    }
    assert(b.no_duplicates()) by {
        assert forall|i: int, j: int| 0 <= i < b.len() && 0 <= j < b.len() && i != j implies b[i] != b[j] by {
            assert(b[i].id != b[j].id);
        }
    }
    a.unique_seq_to_set();
    b.unique_seq_to_set();
    assert(a.to_set() =~= b.to_set());
    assert(is_role_order(oa, b));
    lemma_role_order_unique(oa, role_order_of(b), b);
}

/// The outcome of taking the joints of `order` one after the other:
/// the tree joints, the closure joints, and the primary joint, if any, that
/// would have closed a loop of tree joints.
///
/// A primary joint joins the tree, or is an error if its bodies are already
/// connected by tree joints; an automatic joint joins the tree unless its
/// bodies are already connected, and is a closure joint otherwise; a secondary
/// joint is always a closure joint.
pub open spec fn partition_spec(order: Seq<Joint>) -> (Seq<Joint>, Seq<Joint>, Option<JointId>)
    decreases order.len(),
{
    if order.len() == 0 {
        (Seq::empty(), Seq::empty(), None)
    } else {
        let (tree, closure, cycle) = partition_spec(order.drop_last());
        let joint = order.last();
        if cycle.is_some() {
            (tree, closure, cycle)
        } else {
            let linked = reaches(joint_graph(tree), i_body(joint), j_body(joint));
            match joint.role {
                JointRole::Primary => if linked {
                    (tree, closure, Some(joint.id))
                } else {
                    (tree.push(joint), closure, None)
                },
                JointRole::Auto => if linked {
                    (tree, closure.push(joint), None)
                } else {
                    (tree.push(joint), closure, None)
                },
                JointRole::Secondary => (tree, closure.push(joint), None),
            }
        }
    }
}

/// The identifiers of a sequence of joints.
pub open spec fn joint_ids(joints: Seq<Joint>) -> Seq<JointId> {
    joints.map_values(|joint: Joint| joint.id)
}

/// The two arcs of one joint: from I to J, and back.
pub open spec fn joint_arcs(joint: Joint) -> Seq<Arc> {
    seq![
        Arc {
            from: joint.i_marker.body_id,
            to: joint.j_marker.body_id,
            joint_id: joint.id,
            direction: TraversalDirection::IToJ,
        },
        Arc {
            from: joint.j_marker.body_id,
            to: joint.i_marker.body_id,
            joint_id: joint.id,
            direction: TraversalDirection::JToI,
        },
    ]
}

/// The arcs of a sequence of joints, both directions of each.
pub open spec fn tree_arcs(joints: Seq<Joint>) -> Seq<Arc>
    decreases joints.len(),
{
    if joints.len() == 0 {
        Seq::empty()
    } else {
        tree_arcs(joints.drop_last()) + joint_arcs(joints.last())
    }
}

/// Tracks connected components while constructing the spanning tree.
///
/// `union(a, b)` returns `true` when the components were previously
/// disconnected and have now been joined. It returns `false` when both items
/// already belong to the same component, meaning that adding the
/// corresponding edge would create a cycle.
struct UnionFind {
    parents: Vec<usize>,
    /// The root of the component of each item.
    roots: Ghost<Seq<int>>,
    /// Strictly increases from each item to its parent.
    levels: Ghost<Seq<int>>,
}

impl UnionFind {
    spec fn len(&self) -> nat {
        self.parents@.len()
    }

    spec fn wf(&self) -> bool {
        let n = self.parents@.len();
        &&& self.roots@.len() == n
        &&& self.levels@.len() == n
        &&& forall|x: int| 0 <= x < n ==> (#[trigger] self.parents@[x] as int) < n
        &&& forall|x: int|
            0 <= x < n ==> 0 <= #[trigger] self.roots@[x] < n && self.parents@[self.roots@[x]] as int
                == self.roots@[x]
        &&& forall|x: int| 0 <= x < n && #[trigger] self.parents@[x] as int == x ==> self.roots@[x] == x
        &&& forall|x: int|
            0 <= x < n && #[trigger] self.parents@[x] as int != x ==> self.roots@[self.parents@[x] as int]
                == self.roots@[x] && self.levels@[self.parents@[x] as int] > self.levels@[x]
        &&& forall|x: int|
            0 <= x < n ==> 0 <= #[trigger] self.levels@[x] <= self.levels@[self.roots@[x]]
    }

    /// `size` items, each in a component of its own.
    fn new(size: usize) -> (uf: Self)
        ensures
            uf.wf(),
            uf.len() == size,
            forall|x: int| 0 <= x < size ==> uf.roots@[x] == x,
    {
        let mut parents: Vec<usize> = Vec::new();
        let mut i: usize = 0;
        while i < size
            invariant
                i <= size,
                parents@.len() == i,
                forall|x: int| 0 <= x < i ==> parents@[x] as int == x,
            decreases size - i,
        {
            parents.push(i);
            i = i + 1;
        }
        UnionFind {
            parents,
            roots: Ghost(Seq::new(size as nat, |x: int| x)),
            levels: Ghost(Seq::new(size as nat, |x: int| 0int)),
        }
    }

    /// The root of the component of `item`.
    fn find(&self, item: usize) -> (root: usize)
        requires
            self.wf(),
            item < self.len(),
        ensures
            root as int == self.roots@[item as int],
    {
        let mut x = item;
        while self.parents[x] != x
            invariant
                self.wf(),
                x < self.len(),
                self.roots@[x as int] == self.roots@[item as int],
            decreases self.levels@[self.roots@[item as int]] - self.levels@[x as int],
        {
            x = self.parents[x];
        }
        x
    }

    /// Joins the components containing `a` and `b`.
    ///
    /// Returns `true` if two previously separate components were joined, or
    /// `false` if `a` and `b` were already connected.
    fn union(&mut self, a: usize, b: usize) -> (joined: bool)
        requires
            old(self).wf(),
            a < old(self).len(),
            b < old(self).len(),
        ensures
            final(self).wf(),
            final(self).len() == old(self).len(),
            joined == (old(self).roots@[a as int] != old(self).roots@[b as int]),
            !joined ==> final(self).parents@ == old(self).parents@,
            forall|x: int|
                0 <= x < old(self).len() ==> #[trigger] final(self).roots@[x] == if joined && old(self).roots@[x]
                    == old(self).roots@[b as int] {
                    old(self).roots@[a as int]
                } else {
                    old(self).roots@[x]
                },
    {
        let a_root = self.find(a);
        let b_root = self.find(b);
        if a_root == b_root {
            return false;
        }
        let ghost n = self.parents@.len();
        let ghost old_parents = self.parents@;
        let ghost old_roots = self.roots@;
        let ghost old_levels = self.levels@;
        let ghost ra = a_root as int;
        let ghost rb = b_root as int;
        self.parents.set(b_root, a_root);
        proof {
            let new_level = if old_levels[ra] > old_levels[rb] {
                old_levels[ra]
            } else {
                old_levels[rb] + 1
            };
            self.roots = Ghost(
                Seq::new(n, |x: int| if old_roots[x] == rb {
                    ra
                } else {
                    old_roots[x]
                }),
            );
            self.levels = Ghost(old_levels.update(ra, new_level));
            assert(old_parents[ra] as int == ra);
            assert(old_parents[rb] as int == rb);
            assert forall|x: int| 0 <= x < n implies 0 <= #[trigger] self.levels@[x] <= self.levels@[self.roots@[x]] by {
                assert(old_levels[x] <= old_levels[old_roots[x]]);
            }
            assert forall|x: int|
                0 <= x < n && #[trigger] self.parents@[x] as int != x implies self.roots@[self.parents@[x] as int]
                    == self.roots@[x] && self.levels@[self.parents@[x] as int] > self.levels@[x] by {
                if x != rb {
                    assert(old_parents[x] as int != x);
                    assert(old_roots[old_parents[x] as int] == old_roots[x]);
                }
            }
            assert forall|x: int|
                0 <= x < n implies 0 <= #[trigger] self.roots@[x] < n && self.parents@[self.roots@[x]] as int
                    == self.roots@[x] by {
                assert(old_parents[old_roots[x]] as int == old_roots[x]);
            }
            assert forall|x: int| 0 <= x < n && #[trigger] self.parents@[x] as int == x implies self.roots@[x] == x by {
                assert(old_parents[x] as int == x);
            }
        }
        true
    }
}

/// The positions of the joints of `joints`, in ascending role order.
fn role_order(joints: &crate::model::Joints) -> (order: Vec<usize>)
    requires
        distinct_joint_ids(joints@),
    ensures
        order@.len() == joints@.len(),
        forall|i: int| 0 <= i < order@.len() ==> #[trigger] order@[i] < joints@.len(),
        forall|a: int, b: int|
            0 <= a < b < order@.len() ==> role_key(joints@[#[trigger] order@[a] as int]) < role_key(
                joints@[#[trigger] order@[b] as int],
            ),
        forall|k: usize| k < joints@.len() ==> #[trigger] order@.contains(k),
{
    let n = joints.len();
    let mut order: Vec<usize> = Vec::new();
    let mut last: Option<u64> = None;
    loop
        invariant
            n == joints@.len(),
            distinct_joint_ids(joints@),
            forall|i: int| 0 <= i < order@.len() ==> #[trigger] order@[i] < n,
            forall|a: int, b: int|
                0 <= a < b < order@.len() ==> role_key(joints@[#[trigger] order@[a] as int]) < role_key(
                    joints@[#[trigger] order@[b] as int],
                ),
            last is None ==> order@.len() == 0,
            last matches Some(v) ==> order@.len() > 0 && v == role_key(joints@[order@.last() as int]),
            forall|k: int|
                0 <= k < n && (last matches Some(v) && role_key(#[trigger] joints@[k]) <= v) ==> order@.contains(
                    k as usize,
                ),
        decreases n - order@.len(),
    {
        let mut best: Option<usize> = None;
        let mut k: usize = 0;
        while k < n
            invariant
                k <= n,
                n == joints@.len(),
                best matches Some(b) ==> b < k && (last matches Some(v) ==> role_key(joints@[b as int]) > v),
                forall|m: int|
                    0 <= m < k && (last matches Some(v) ==> role_key(#[trigger] joints@[m]) > v) ==> (best matches Some(
                        b,
                    ) && role_key(joints@[b as int]) <= role_key(joints@[m])),
            decreases n - k,
        {
            let key = role_key_of(joints.at(k));
            let above = match last {
                Some(v) => key > v,
                None => true,
            };
            if above {
                match best {
                    Some(b) => {
                        if key < role_key_of(joints.at(b)) {
                            best = Some(k);
                        }
                    },
                    None => {
                        best = Some(k);
                    },
                }
            }
            k = k + 1;
        }
        match best {
            Some(b) => {
                let key = role_key_of(joints.at(b));
                let ghost old_order = order@;
                order.push(b);
                last = Some(key);
                proof {
                    assert forall|k: int|
                        0 <= k < n && role_key(#[trigger] joints@[k]) <= key implies order@.contains(k as usize) by {
                        if role_key(joints@[k]) == key {
                            if k != b {
                                assert(joints@[k].id != joints@[b as int].id);
                            }
                            assert(order@[order@.len() - 1] == b);
                        } else {
                            assert(old_order.contains(k as usize));
                            let i = choose|i: int| 0 <= i < old_order.len() && old_order[i] == k as usize;
                            assert(order@[i] == k as usize);
                        }
                    }
                    let idx = order@.map_values(|x: usize| x as int);
                    assert forall|i: int, j: int| 0 <= i < idx.len() && 0 <= j < idx.len() && i != j implies idx[i] != idx[j] by {
                        if i < j {
                            assert(role_key(joints@[order@[i] as int]) < role_key(joints@[order@[j] as int]));
                        } else {
                            assert(role_key(joints@[order@[j] as int]) < role_key(joints@[order@[i] as int]));
                        }
                    }
                    lemma_distinct_indices_bound(idx, n as int);
                }
            },
            None => {
                proof {
                    assert forall|k: usize| k < n implies #[trigger] order@.contains(k) by {
                        let ki = k as int;
                        assert(0 <= ki < n);
                        if !(last matches Some(v) && role_key(joints@[ki]) <= v) {
                        }
                        assert(order@.contains(ki as usize));
                    }
                    let idx = order@.map_values(|x: usize| x as int);
                    assert forall|k: int| 0 <= k < n implies #[trigger] idx.contains(k) by {
                        assert(order@.contains(k as usize));
                        let i = choose|i: int| 0 <= i < order@.len() && order@[i] == k as usize;
                        assert(idx[i] == k);
                    }
                    assert forall|i: int, j: int| 0 <= i < idx.len() && 0 <= j < idx.len() && i != j implies idx[i] != idx[j] by {
                        if i < j {
                            assert(role_key(joints@[order@[i] as int]) < role_key(joints@[order@[j] as int]));
                        } else {
                            assert(role_key(joints@[order@[j] as int]) < role_key(joints@[order@[i] as int]));
                        }
                    }
                    lemma_distinct_indices_cover(idx, n as int);
                }
                return order;
            },
        }
    }
}

/// The role key of a joint.
fn role_key_of(joint: &Joint) -> (key: u64)
    ensures
        key == role_key(*joint),
{
    let priority: u64 = match joint.role {
        JointRole::Primary => 0,
        _ => 1,
    };
    priority * 0x1_0000_0000u64 + joint.id.0 as u64
}

/// A sequence of distinct indices below `n` that holds every index below `n`
/// has exactly `n` entries.
proof fn lemma_distinct_indices_cover(s: Seq<int>, n: int)
    requires
        s.no_duplicates(),
        0 <= n,
        forall|i: int| 0 <= i < s.len() ==> 0 <= #[trigger] s[i] < n,
        forall|k: int| 0 <= k < n ==> s.contains(k),
    ensures
        s.len() == n,
{
    s.unique_seq_to_set();
    vstd::set_lib::lemma_int_range(0, n);
    assert(s.to_set() =~= vstd::set_lib::set_int_range(0, n));
}

/// Without joints, a body reaches only itself.
proof fn lemma_no_joints_reaches(x: u32, y: u32)
    ensures
        reaches(joint_graph(Seq::<Joint>::empty()), x, y) <==> x == y,
{
    let g = joint_graph(Seq::<Joint>::empty());
    if reaches(g, x, y) {
        let p = choose|p: Seq<u32>| #[trigger] is_walk(g, p) && p[0] == x && p.last() == y;
        if p.len() > 1 {
            assert(walk_step(g, p, 0));
        }
    }
    if x == y {
        lemma_reaches_refl(g, x);
    }
}

/// Adding a joint to a set of joints adds its undirected edge to the graph.
proof fn lemma_joint_graph_push(joints: Seq<Joint>, joint: Joint)
    ensures
        joint_graph(joints.push(joint)) =~= with_edge(joint_graph(joints), i_body(joint), j_body(joint)),
        is_symmetric(joint_graph(joints)),
{
    let g = joint_graph(joints);
    let g2 = joint_graph(joints.push(joint));
    assert forall|x: u32, y: u32| #[trigger] g2(x, y) == with_edge(g, i_body(joint), j_body(joint))(x, y) by {
        if g2(x, y) {
            let k = choose|k: int| 0 <= k < joints.push(joint).len() && joint_links(#[trigger] joints.push(joint)[k], x, y);
            if k < joints.len() {
                assert(joints.push(joint)[k] == joints[k]);
            }
        }
        if g(x, y) {
            let k = choose|k: int| 0 <= k < joints.len() && joint_links(#[trigger] joints[k], x, y);
            assert(joints.push(joint)[k] == joints[k]);
        }
        if (x == i_body(joint) && y == j_body(joint)) || (x == j_body(joint) && y == i_body(joint)) {
            assert(joint_links(joints.push(joint)[joints.len() as int], x, y));
        }
    }
    assert forall|x: u32, y: u32| #[trigger] g(x, y) implies g(y, x) by {
        let k = choose|k: int| 0 <= k < joints.len() && joint_links(#[trigger] joints[k], x, y);
        assert(joint_links(joints[k], y, x));
    }
}

/// The component roots of the bodies agree exactly when the tree joints
/// connect the bodies.
spec fn roots_match_tree(bodies: Seq<Body>, tree: Seq<Joint>, roots: Seq<int>) -> bool {
    forall|u: int, v: int|
        0 <= u < bodies.len() && 0 <= v < bodies.len() ==> (roots[u] == roots[v] <==> reaches(
            joint_graph(tree),
            (#[trigger] bodies[u]).id.0,
            (#[trigger] bodies[v]).id.0,
        ))
}

proof fn lemma_union_matches_tree(
    bodies: Seq<Body>,
    tree: Seq<Joint>,
    joint: Joint,
    r0: Seq<int>,
    r1: Seq<int>,
    ia: int,
    ib: int,
)
    requires
        roots_match_tree(bodies, tree, r0),
        r0.len() == bodies.len(),
        r1.len() == bodies.len(),
        0 <= ia < bodies.len(),
        0 <= ib < bodies.len(),
        bodies[ia].id.0 == i_body(joint),
        bodies[ib].id.0 == j_body(joint),
        r0[ia] != r0[ib],
        forall|x: int| 0 <= x < bodies.len() ==> #[trigger] r1[x] == if r0[x] == r0[ib] {
            r0[ia]
        } else {
            r0[x]
        },
    ensures
        roots_match_tree(bodies, tree.push(joint), r1),
{
    lemma_joint_graph_push(tree, joint);
    let g = joint_graph(tree);
    assert forall|u: int, v: int|
        0 <= u < bodies.len() && 0 <= v < bodies.len() implies (r1[u] == r1[v] <==> reaches(
        joint_graph(tree.push(joint)),
        (#[trigger] bodies[u]).id.0,
        (#[trigger] bodies[v]).id.0,
    )) by {
        let x = bodies[u].id.0;
        let y = bodies[v].id.0;
        lemma_with_edge_reaches(g, i_body(joint), j_body(joint), x, y);
        assert(r0[u] == r0[ia] <==> reaches(g, bodies[u].id.0, bodies[ia].id.0));
        assert(r0[u] == r0[ib] <==> reaches(g, bodies[u].id.0, bodies[ib].id.0));
        assert(r0[v] == r0[ia] <==> reaches(g, bodies[v].id.0, bodies[ia].id.0));
        assert(r0[v] == r0[ib] <==> reaches(g, bodies[v].id.0, bodies[ib].id.0));
        assert(r0[u] == r0[v] <==> reaches(g, bodies[u].id.0, bodies[v].id.0));
    }
}

/// Once a cycle is found, it stays the outcome.
proof fn lemma_partition_cycle_persists(order: Seq<Joint>, t: int)
    requires
        0 <= t <= order.len(),
        partition_spec(order.take(t)).2.is_some(),
    ensures
        partition_spec(order) == partition_spec(order.take(t)),
    decreases order.len() - t,
{
    if t < order.len() {
        assert(order.take(t + 1).drop_last() =~= order.take(t));
        lemma_partition_cycle_persists(order, t + 1);
    } else {
        assert(order.take(t) =~= order);
    }
}

/// The tree and closure joints of a partition are joints of the order.
proof fn lemma_partition_members(order: Seq<Joint>)
    ensures
        forall|k: int| 0 <= k < partition_spec(order).0.len() ==> order.contains(#[trigger] partition_spec(order).0[k]),
        forall|k: int| 0 <= k < partition_spec(order).1.len() ==> order.contains(#[trigger] partition_spec(order).1[k]),
    decreases order.len(),
{
    if order.len() > 0 {
        let init = order.drop_last();
        lemma_partition_members(init);
        let (t0, c0, e0) = partition_spec(init);
        assert forall|j: Joint| init.contains(j) implies order.contains(j) by {
            let k = choose|k: int| 0 <= k < init.len() && init[k] == j;
            assert(order[k] == j);
        }
        assert(order.contains(order.last())) by {
            assert(order[order.len() - 1] == order.last());
        }
        let (t1, c1, e1) = partition_spec(order);
        assert forall|k: int| 0 <= k < t1.len() implies order.contains(#[trigger] t1[k]) by {
            if k < t0.len() {
                assert(t1[k] == t0[k]);
                assert(init.contains(t0[k]));
            }
        }
        assert forall|k: int| 0 <= k < c1.len() implies order.contains(#[trigger] c1[k]) by {
            if k < c0.len() {
                assert(c1[k] == c0[k]);
                assert(init.contains(c0[k]));
            }
        }
    }
}

/// Result of partitioning the mechanism joints into a spanning tree
/// and loop-closing edges.
#[derive(Debug)]
pub struct JointPartition {
    tree_joint_ids: Vec<JointId>,
    closure_joint_ids: Vec<JointId>,
}

/// `result` is what taking the joints in the order of `outcome` gives.
spec fn partition_result_matches(
    outcome: (Seq<Joint>, Seq<Joint>, Option<JointId>),
    result: Result<JointPartition, KinematicTopologyError>,
) -> bool {
    match outcome.2 {
        Some(id) => result == Err::<JointPartition, KinematicTopologyError>(
            KinematicTopologyError::TreeJointCycle { joint_id: id },
        ),
        None => result matches Ok(p) && p.tree_joint_ids@ == joint_ids(outcome.0)
            && p.closure_joint_ids@ == joint_ids(outcome.1),
    }
}

/// Splits the joints into tree joints and closure joints, taking them in role
/// order.
fn partition_tree_and_closure_joints(model: &Model) -> (result: Result<JointPartition, KinematicTopologyError>)
    ensures
        exists|order: Seq<Joint>|
            #[trigger] is_role_order(order, model.joint_seq()) && partition_result_matches(
                partition_spec(order),
                result,
            ),
{
    proof {
        use_type_invariant(model);
        lemma_first_joint_error_none(model.body_seq(), model.joint_seq());
    }
    let bodies = model.bodies();
    let joints = model.joints();
    let order = role_order(joints);
    let ghost ord = order@.map_values(|k: usize| joints@[k as int]);
    let joint_count = order.len();
    proof {
        assert forall|k: int| 0 <= k < joints@.len() implies ord.contains(#[trigger] joints@[k]) by {
            assert(order@.contains(k as usize));
            let i = choose|i: int| 0 <= i < order@.len() && order@[i] == k as usize;
            assert((k as usize) as int == k);
            assert(ord[i] == joints@[order@[i] as int]);
            assert(ord[i] == joints@[k]);
        }
        assert forall|k: int| 0 <= k < ord.len() implies joints@.contains(#[trigger] ord[k]) by {
            assert(ord[k] == joints@[order@[k] as int]);
        }
        assert(is_role_order(ord, joints@));
    }
    let mut connectivity = UnionFind::new(bodies.len());
    let mut tree_joint_ids: Vec<JointId> = Vec::new();
    let mut closure_joint_ids: Vec<JointId> = Vec::new();
    let ghost mut tree: Seq<Joint> = Seq::empty();
    let ghost mut closure: Seq<Joint> = Seq::empty();
    proof {
        assert(ord.take(0) =~= Seq::<Joint>::empty());
        assert forall|u: int, v: int|
            0 <= u < bodies@.len() && 0 <= v < bodies@.len() implies (connectivity.roots@[u]
            == connectivity.roots@[v] <==> reaches(
            joint_graph(tree),
            (#[trigger] bodies@[u]).id.0,
            (#[trigger] bodies@[v]).id.0,
        )) by {
            lemma_no_joints_reaches(bodies@[u].id.0, bodies@[v].id.0);
            assert(distinct_body_ids(bodies@));
        }
        assert(tree_joint_ids@ =~= joint_ids(tree));
        assert(closure_joint_ids@ =~= joint_ids(closure));
    }
    let mut t: usize = 0;
    while t < joint_count
        invariant
            t <= joint_count,
            joint_count == joints@.len(),
            joint_count == order@.len(),
            ord == order@.map_values(|k: usize| joints@[k as int]),
            is_role_order(ord, joints@),
            joints@ == model.joint_seq(),
            bodies@ == model.body_seq(),
            valid_model(bodies@, joints@),
            forall|q: int| 0 <= q < joints@.len() ==> joint_reference_error(bodies@, #[trigger] joints@[q]).is_none(),
            forall|i: int| 0 <= i < order@.len() ==> #[trigger] order@[i] < joints@.len(),
            partition_spec(ord.take(t as int)) == (tree, closure, None::<JointId>),
            tree_joint_ids@ == joint_ids(tree),
            closure_joint_ids@ == joint_ids(closure),
            connectivity.wf(),
            connectivity.len() == bodies@.len(),
            roots_match_tree(bodies@, tree, connectivity.roots@),
        decreases joint_count - t,
    {
        let joint = joints.at(order[t]);
        let joint_id = joint.id;
        proof {
            assert(ord.take(t + 1).drop_last() =~= ord.take(t as int));
            assert(ord.take(t + 1).last() == *joint);
            assert(joint_reference_error(bodies@, joints@[order@[t as int] as int]).is_none());
        }
        let i_index = match bodies.index_of(joint.i_marker.body_id) {
            Some(index) => index,
            None => {
                assert(false);
                0
            },
        };
        let j_index = match bodies.index_of(joint.j_marker.body_id) {
            Some(index) => index,
            None => {
                assert(false);
                0
            },
        };
        let ghost r0 = connectivity.roots@;
        proof {
            assert(r0[i_index as int] == r0[j_index as int] <==> reaches(
                joint_graph(tree),
                bodies@[i_index as int].id.0,
                bodies@[j_index as int].id.0,
            ));
        }
        match joint.role {
            JointRole::Primary => {
                if !connectivity.union(i_index, j_index) {
                    proof {
                        assert(reaches(joint_graph(tree), i_body(*joint), j_body(*joint)));
                        assert(partition_spec(ord.take(t + 1)) == (tree, closure, Some(joint_id)));
                        lemma_partition_cycle_persists(ord, t + 1);
                        assert(is_role_order(ord, model.joint_seq()));
                    }
                    return Err(KinematicTopologyError::TreeJointCycle { joint_id });
                }
                proof {
                    lemma_union_matches_tree(bodies@, tree, *joint, r0, connectivity.roots@, i_index as int, j_index as int);
                    tree = tree.push(*joint);
                }
                tree_joint_ids.push(joint_id);
            },
            JointRole::Auto => {
                if connectivity.union(i_index, j_index) {
                    proof {
                        lemma_union_matches_tree(bodies@, tree, *joint, r0, connectivity.roots@, i_index as int, j_index as int);
                        tree = tree.push(*joint);
                    }
                    tree_joint_ids.push(joint_id);
                } else {
                    proof {
                        closure = closure.push(*joint);
                    }
                    closure_joint_ids.push(joint_id);
                }
            },
            JointRole::Secondary => {
                proof {
                    closure = closure.push(*joint);
                }
                closure_joint_ids.push(joint_id);
            },
        }
        proof {
            assert(tree_joint_ids@ =~= joint_ids(tree));
            assert(closure_joint_ids@ =~= joint_ids(closure));
        }
        t = t + 1;
    }
    proof {
        assert(ord.take(joint_count as int) =~= ord);
        assert(is_role_order(ord, model.joint_seq()));
    }
    Ok(JointPartition { tree_joint_ids, closure_joint_ids })
}

#[derive(Debug, PartialEq, Eq, Structural)]
#[non_exhaustive]
pub enum KinematicTopologyError {
    TreeJointCycle { joint_id: JointId },
    UnreachableTreeBody { body_id: BodyId },
}

/// The message that reports `e`.
pub open spec fn topology_error_text(e: KinematicTopologyError) -> Seq<char> {
    match e {
        KinematicTopologyError::TreeJointCycle { joint_id } => "tree joint `"@ + joint_id_text(joint_id)
            + "` would create a cycle"@,
        KinematicTopologyError::UnreachableTreeBody { body_id } => "body `"@ + body_id_text(body_id)
            + "` is not reachable from ground through tree joints"@,
    }
}

impl KinematicTopologyError {
    /// The message that reports the error.
    pub fn message(&self) -> (text: String)
        ensures
            text@ == topology_error_text(*self),
    {
        let mut text = String::new();
        match self {
            KinematicTopologyError::TreeJointCycle { joint_id } => {
                push_str(&mut text, "tree joint `");
                push_joint_id(&mut text, *joint_id);
                push_str(&mut text, "` would create a cycle");
            },
            KinematicTopologyError::UnreachableTreeBody { body_id } => {
                push_str(&mut text, "body `");
                push_body_id(&mut text, *body_id);
                push_str(&mut text, "` is not reachable from ground through tree joints");
            },
        }
        text
    }
}

/// An oriented edge of the spanning tree.
///
/// Parent and child refer to the tree orientation and are independent of the
/// joint's I/J marker ordering.
#[derive(Clone, Copy, Debug, PartialEq, Eq, Structural)]
pub struct TreeEdge {
    parent_body_id: BodyId,
    child_body_id: BodyId,
    joint_id: JointId,
    direction: TraversalDirection,
}

impl View for TreeEdge {
    type V = Arc;

    /// The edge as an arc from the parent to the child.
    closed spec fn view(&self) -> Arc {
        Arc {
            from: self.parent_body_id,
            to: self.child_body_id,
            joint_id: self.joint_id,
            direction: self.direction,
        }
    }
}

impl TreeEdge {
    pub fn parent_body_id(&self) -> (id: BodyId)
        ensures
            id == self@.from,
    {
        self.parent_body_id
    }

    pub fn child_body_id(&self) -> (id: BodyId)
        ensures
            id == self@.to,
    {
        self.child_body_id
    }

    pub fn joint_id(&self) -> (id: JointId)
        ensures
            id == self@.joint_id,
    {
        self.joint_id
    }

    pub fn direction(&self) -> (direction: TraversalDirection)
        ensures
            direction == self@.direction,
    {
        self.direction
    }
}

/// The arcs of a sequence of tree edges.
pub open spec fn edge_arcs(edges: Seq<TreeEdge>) -> Seq<Arc> {
    edges.map_values(|e: TreeEdge| e@)
}

/// Topological representation of the mechanism: the spanning-tree edges in
/// parent-before-child order, and the joints that close loops.
#[derive(Debug, PartialEq, Eq)]
pub struct KinematicTopology {
    tree_edges: Vec<TreeEdge>,
    closure_joint_ids: Vec<JointId>,
}

impl KinematicTopology {
    /// The spanning-tree edges, as arcs from parent to child.
    pub closed spec fn tree_edge_arcs(&self) -> Seq<Arc> {
        edge_arcs(self.tree_edges@)
    }

    /// The joints that close loops.
    pub closed spec fn closure_id_seq(&self) -> Seq<JointId> {
        self.closure_joint_ids@
    }

    /// Returns the spanning-tree edges in parent-before-child order.
    pub fn tree_edges(&self) -> (edges: &[TreeEdge])
        ensures
            edge_arcs(edges@) == self.tree_edge_arcs(),
    {
        self.tree_edges.as_slice()
    }

    /// Returns joints that close loops in the mechanism.
    pub fn closure_joint_ids(&self) -> (ids: &[JointId])
        ensures
            ids@ == self.closure_id_seq(),
    {
        self.closure_joint_ids.as_slice()
    }
}

/// What building the topology gives for the partition `outcome`: the cycle
/// error, else the first body that the tree joints leave unconnected to
/// ground, else the closure joints and the breadth-first spanning tree.
pub open spec fn topology_matches(
    bodies: Seq<Body>,
    outcome: (Seq<Joint>, Seq<Joint>, Option<JointId>),
    result: Result<KinematicTopology, KinematicTopologyError>,
) -> bool {
    match outcome.2 {
        Some(id) => result == Err::<KinematicTopology, KinematicTopologyError>(
            KinematicTopologyError::TreeJointCycle { joint_id: id },
        ),
        None => match first_free_body(bodies, outcome.0) {
            Some(body_id) => result == Err::<KinematicTopology, KinematicTopologyError>(
                KinematicTopologyError::UnreachableTreeBody { body_id },
            ),
            None => result matches Ok(topology) && topology.closure_id_seq() == joint_ids(outcome.1)
                && is_breadth_first(topology.tree_edge_arcs(), tree_arcs(outcome.0)),
        },
    }
}

/// Decomposes the mechanism into a spanning tree rooted at ground and the
/// joints that close loops.
pub fn build_kinematic_topology(model: &Model) -> (result: Result<KinematicTopology, KinematicTopologyError>)
    ensures
        topology_matches(model.body_seq(), partition_spec(role_order_of(model.joint_seq())), result),
        result matches Ok(topology) ==> forall|k: int|
            0 <= k < topology.tree_edge_arcs().len() ==> has_joint(
                model.joint_seq(),
                (#[trigger] topology.tree_edge_arcs()[k]).joint_id,
            ),
{
    let partition = partition_tree_and_closure_joints(model);
    let ghost order = choose|order: Seq<Joint>|
        #[trigger] is_role_order(order, model.joint_seq()) && partition_result_matches(
            partition_spec(order),
            partition,
        );
    proof {
        lemma_role_order_unique(order, role_order_of(model.joint_seq()), model.joint_seq());
    }
    match partition {
        Err(e) => Err(e),
        Ok(partition) => {
            proof {
                lemma_partition_members(order);
                lemma_partition_tree_sorted(order);
            }
            let JointPartition { tree_joint_ids, closure_joint_ids } = partition;
            match orient_tree_edges(model, &tree_joint_ids, Ghost(partition_spec(order).0)) {
                Err(e) => Err(e),
                Ok(tree_edges) => {
                    let topology = KinematicTopology { tree_edges, closure_joint_ids };
                    proof {
                        let tree = partition_spec(order).0;
                        assert forall|k: int| 0 <= k < topology.tree_edge_arcs().len() implies has_joint(
                            model.joint_seq(),
                            (#[trigger] topology.tree_edge_arcs()[k]).joint_id,
                        ) by {
                            lemma_tree_arc_joint(tree, model.joint_seq(), topology.tree_edge_arcs()[k]);
                        }
                    }
                    Ok(topology)
                },
            }
        },
    }
}

/// Each arc of the tree joints belongs to a joint of the model.
proof fn lemma_tree_arc_joint(tree: Seq<Joint>, joints: Seq<Joint>, arc: Arc)
    requires
        forall|k: int| 0 <= k < tree.len() ==> joints.contains(#[trigger] tree[k]),
        tree_arcs(tree).contains(arc),
    ensures
        has_joint(joints, arc.joint_id),
{
    lemma_tree_arcs_index(tree);
    let i = choose|i: int| 0 <= i < tree_arcs(tree).len() && tree_arcs(tree)[i] == arc;
    let m = i / 2;
    assert(joint_arcs(tree[m])[0] == tree_arcs(tree)[2 * m]);
    assert(joints.contains(tree[m]));
    let q = choose|q: int| 0 <= q < joints.len() && joints[q] == tree[m];
    assert(joints[q].id == arc.joint_id);
}

/// The tree joints come in ascending role order.
proof fn lemma_partition_tree_sorted(order: Seq<Joint>)
    requires
        forall|a: int, b: int| 0 <= a < b < order.len() ==> role_key(#[trigger] order[a]) < role_key(#[trigger] order[b]),
    ensures
        forall|a: int, b: int|
            0 <= a < b < partition_spec(order).0.len() ==> role_key(#[trigger] partition_spec(order).0[a])
                < role_key(#[trigger] partition_spec(order).0[b]),
    decreases order.len(),
{
    if order.len() > 0 {
        let init = order.drop_last();
        lemma_partition_tree_sorted(init);
        lemma_partition_members(init);
        let t0 = partition_spec(init).0;
        let t1 = partition_spec(order).0;
        assert forall|a: int, b: int| 0 <= a < b < t1.len() implies role_key(#[trigger] t1[a]) < role_key(#[trigger] t1[b]) by {
            if b < t0.len() {
                assert(t1[a] == t0[a] && t1[b] == t0[b]);
            } else {
                assert(t1[a] == t0[a]);
                assert(init.contains(t0[a]));
                let i = choose|i: int| 0 <= i < init.len() && init[i] == t0[a];
                assert(order[i] == init[i]);
                assert(t1[b] == order[order.len() - 1]);
            }
        }
    }
}

/// Positions of the arcs of each joint.
proof fn lemma_tree_arcs_index(joints: Seq<Joint>)
    ensures
        tree_arcs(joints).len() == 2 * joints.len(),
        forall|m: int| 0 <= m < joints.len() ==> tree_arcs(joints)[2 * m] == #[trigger] joint_arcs(joints[m])[0]
            && tree_arcs(joints)[2 * m + 1] == joint_arcs(joints[m])[1],
    decreases joints.len(),
{
    if joints.len() > 0 {
        let init = joints.drop_last();
        lemma_tree_arcs_index(init);
        assert forall|m: int| 0 <= m < joints.len() implies tree_arcs(joints)[2 * m] == #[trigger] joint_arcs(joints[m])[0]
            && tree_arcs(joints)[2 * m + 1] == joint_arcs(joints[m])[1] by {
            if m < init.len() {
                assert(init[m] == joints[m]);
                assert(joint_arcs(init[m])[0] == tree_arcs(init)[2 * m]);
            }
        }
    }
}

/// Following the arcs of some joints is following the joints.
proof fn lemma_tree_arcs_graph(joints: Seq<Joint>)
    ensures
        arc_graph(tree_arcs(joints)) =~= joint_graph(joints),
{
    lemma_tree_arcs_index(joints);
    let arcs = tree_arcs(joints);
    assert forall|x: u32, y: u32| #[trigger] arc_graph(arcs)(x, y) == joint_graph(joints)(x, y) by {
        if arc_graph(arcs)(x, y) {
            let k = choose|k: int| 0 <= k < arcs.len() && (#[trigger] arcs[k]).from.0 == x && arcs[k].to.0 == y;
            let m = k / 2;
            assert(joint_arcs(joints[m])[0] == arcs[2 * m]);
            assert(joint_links(joints[m], x, y));
        }
        if joint_graph(joints)(x, y) {
            let m = choose|m: int| 0 <= m < joints.len() && joint_links(#[trigger] joints[m], x, y);
            assert(joint_arcs(joints[m])[0] == arcs[2 * m]);
            if i_body(joints[m]) == x && j_body(joints[m]) == y {
                assert(arcs[2 * m].from.0 == x && arcs[2 * m].to.0 == y);
            } else {
                assert(arcs[2 * m + 1].from.0 == x && arcs[2 * m + 1].to.0 == y);
            }
        }
    }
}

/// Whether the traversal `out` reached body `id`.
fn is_reached(out: &Vec<Arc>, id: BodyId) -> (found: bool)
    ensures
        found == crate::problem::traversal::reached_bodies(out@).contains(id.0),
{
    let ghost reached = crate::problem::traversal::reached_bodies(out@);
    proof {
        crate::problem::traversal::lemma_reached_push(out@, arbitrary());
    }
    if id.0 == 0 {
        assert(reached[0] == 0);
        return true;
    }
    let mut k: usize = 0;
    while k < out.len()
        invariant
            k <= out@.len(),
            id.0 != 0,
            reached == crate::problem::traversal::reached_bodies(out@),
            reached.len() == out@.len() + 1,
            reached[0] == 0,
            forall|m: int| 0 <= m < out@.len() ==> reached[m + 1] == (#[trigger] out@[m]).to.0,
            forall|m: int| 0 <= m < k ==> out@[m].to != id,
        decreases out@.len() - k,
    {
        if out[k].to == id {
            assert(reached[k + 1] == id.0);
            return true;
        }
        k = k + 1;
    }
    proof {
        if reached.contains(id.0) {
            let w = choose|w: int| 0 <= w < reached.len() && reached[w] == id.0;
            assert(out@[w - 1].to.0 == id.0);
        }
    }
    false
}

/// Orients the tree joints from ground by a breadth-first traversal, and
/// checks that every body is reached.
fn orient_tree_edges(model: &Model, tree_joint_ids: &Vec<JointId>, Ghost(tree): Ghost<Seq<Joint>>) -> (result: Result<Vec<TreeEdge>, KinematicTopologyError>)
    requires
        tree_joint_ids@ == joint_ids(tree),
        forall|k: int| 0 <= k < tree.len() ==> model.joint_seq().contains(#[trigger] tree[k]),
        forall|a: int, b: int| 0 <= a < b < tree.len() ==> role_key(#[trigger] tree[a]) < role_key(#[trigger] tree[b]),
    ensures
        match result {
            Err(e) => first_free_body(model.body_seq(), tree) matches Some(body_id) && e
                == KinematicTopologyError::UnreachableTreeBody { body_id },
            Ok(edges) => first_free_body(model.body_seq(), tree).is_none() && is_breadth_first(
                edge_arcs(edges@),
                tree_arcs(tree),
            ),
        },
{
    proof {
        use_type_invariant(model);
        lemma_first_joint_error_none(model.body_seq(), model.joint_seq());
    }
    let joints = model.joints();
    let bodies = model.bodies();
    let mut arcs: Vec<Arc> = Vec::new();
    let mut k: usize = 0;
    let count = tree_joint_ids.len();
    proof {
        assert(tree.take(0) =~= Seq::<Joint>::empty());
    }
    while k < count
        invariant
            k <= count,
            count == tree.len(),
            tree_joint_ids@ == joint_ids(tree),
            joints@ == model.joint_seq(),
            valid_model(model.body_seq(), model.joint_seq()),
            forall|q: int| 0 <= q < joints@.len() ==> joint_reference_error(model.body_seq(), #[trigger] joints@[q]).is_none(),
            forall|m: int| 0 <= m < tree.len() ==> joints@.contains(#[trigger] tree[m]),
            arcs@ == tree_arcs(tree.take(k as int)),
        decreases count - k,
    {
        let id = tree_joint_ids[k];
        let joint = match joints.get(id) {
            Some(joint) => joint,
            None => {
                proof {
                    let q = choose|q: int| 0 <= q < joints@.len() && joints@[q] == tree[k as int];
                    assert(joints@[q].id == id);
                }
                assert(false);
                return Err(KinematicTopologyError::UnreachableTreeBody { body_id: BodyId(0) });
            },
        };
        proof {
            let q = choose|q: int| 0 <= q < joints@.len() && joints@[q] == tree[k as int];
            let p = choose|p: int| 0 <= p < joints@.len() && joints@[p] == *joint;
            assert(joints@[q].id == joints@[p].id);
            assert(*joint == tree[k as int]);
            assert(tree.take(k + 1).drop_last() =~= tree.take(k as int));
        }
        arcs.push(Arc {
            from: joint.i_marker.body_id,
            to: joint.j_marker.body_id,
            joint_id: joint.id,
            direction: TraversalDirection::IToJ,
        });
        arcs.push(Arc {
            from: joint.j_marker.body_id,
            to: joint.i_marker.body_id,
            joint_id: joint.id,
            direction: TraversalDirection::JToI,
        });
        proof {
            assert(arcs@ =~= tree_arcs(tree.take((k + 1) as int)));
        }
        k = k + 1;
    }
    proof {
        assert(tree.take(count as int) =~= tree);
        lemma_tree_arcs_index(tree);
        lemma_tree_arcs_graph(tree);
        assert forall|a: int, b: int|
            0 <= a < arcs@.len() && 0 <= b < arcs@.len() && a != b && (#[trigger] arcs@[a]).from == (
            #[trigger] arcs@[b]).from implies arc_key(arcs@[a]) != arc_key(arcs@[b]) by {
            let ma = a / 2;
            let mb = b / 2;
            assert(joint_arcs(tree[ma])[0] == arcs@[2 * ma]);
            assert(joint_arcs(tree[mb])[0] == arcs@[2 * mb]);
            let qa = choose|q: int| 0 <= q < joints@.len() && joints@[q] == tree[ma];
            let qb = choose|q: int| 0 <= q < joints@.len() && joints@[q] == tree[mb];
            assert(joint_reference_error(model.body_seq(), joints@[qa]).is_none());
            if ma != mb {
                if ma < mb {
                    assert(role_key(tree[ma]) < role_key(tree[mb]));
                } else {
                    assert(role_key(tree[mb]) < role_key(tree[ma]));
                }
                assert(qa != qb);
            }
        }
    }
    let out = breadth_first(&arcs);
    let body_count = bodies.len();
    let mut b: usize = 0;
    while b < body_count
        invariant
            b <= body_count,
            body_count == bodies@.len(),
            bodies@ == model.body_seq(),
            is_breadth_first(out@, arcs@),
            arc_graph(arcs@) == joint_graph(tree),
            first_free_body(bodies@.take(b as int), tree).is_none(),
        decreases body_count - b,
    {
        let id = bodies.at(b).id;
        proof {
            assert(bodies@.take(b + 1).drop_last() =~= bodies@.take(b as int));
            assert(bodies@.take(b + 1).last() == bodies@[b as int]);
        }
        if !is_reached(&out, id) {
            proof {
                lemma_first_free_body_prefix_tree(bodies@, tree, (b + 1) as int);
            }
            return Err(KinematicTopologyError::UnreachableTreeBody { body_id: id });
        }
        b = b + 1;
    }
    proof {
        assert(bodies@.take(body_count as int) =~= bodies@);
    }
    let mut edges: Vec<TreeEdge> = Vec::new();
    let mut e: usize = 0;
    while e < out.len()
        invariant
            e <= out@.len(),
            edges@.len() == e,
            forall|m: int| 0 <= m < e ==> (#[trigger] edges@[m])@ == out@[m],
        decreases out@.len() - e,
    {
        let arc = out[e];
        edges.push(TreeEdge {
            parent_body_id: arc.from,
            child_body_id: arc.to,
            joint_id: arc.joint_id,
            direction: arc.direction,
        });
        e = e + 1;
    }
    proof {
        assert(edge_arcs(edges@) =~= out@);
    }
    Ok(edges)
}

proof fn lemma_first_free_body_prefix_tree(bodies: Seq<Body>, joints: Seq<Joint>, k: int)
    requires
        0 < k <= bodies.len(),
        first_free_body(bodies.take(k - 1), joints).is_none(),
        !connected_to_ground(joints, bodies[k - 1].id),
    ensures
        first_free_body(bodies, joints) == Some(bodies[k - 1].id),
    decreases bodies.len(),
{
    if k < bodies.len() {
        assert(bodies.drop_last().take(k - 1) =~= bodies.take(k - 1));
        lemma_first_free_body_prefix_tree(bodies.drop_last(), joints, k);
    } else {
        assert(bodies.take(k - 1) =~= bodies.drop_last());
    }
}

/// The spanning tree reaches every body of the model, each exactly once:
/// the bodies that the tree edges lead to from ground, ground first, are
/// all the bodies of the model, none twice.
pub proof fn lemma_tree_spans_model(bodies: Seq<Body>, joints: Seq<Joint>, topology: KinematicTopology)
    requires
        topology_matches(bodies, partition_spec(role_order_of(joints)), Ok(topology)),
    ensures
        forall|a: int| 0 <= a < bodies.len() ==> reached_bodies(topology.tree_edge_arcs()).contains(
            #[trigger] bodies[a].id.0,
        ),
        reached_bodies(topology.tree_edge_arcs()).no_duplicates(),
{
    let tree = partition_spec(role_order_of(joints)).0;
    lemma_first_free_body_none(bodies, tree);
    lemma_tree_arcs_graph(tree);
    assert forall|a: int| 0 <= a < bodies.len() implies reached_bodies(topology.tree_edge_arcs()).contains(
        #[trigger] bodies[a].id.0,
    ) by {
        assert(connected_to_ground(tree, bodies[a].id));
        assert(reaches(arc_graph(tree_arcs(tree)), 0, bodies[a].id.0));
    }
}

/// Without a cycle of primary joints, every joint ends up either in the
/// tree or among the closure joints, and never in both.
pub proof fn lemma_partition_covers_joints(order: Seq<Joint>)
    requires
        partition_spec(order).2.is_none(),
        order.no_duplicates(),
    ensures
        forall|k: int|
            0 <= k < order.len() ==> (partition_spec(order).0.contains(#[trigger] order[k])
                != partition_spec(order).1.contains(order[k])),
        partition_spec(order).0.len() + partition_spec(order).1.len() == order.len(),
    decreases order.len(),
{
    if order.len() > 0 {
        let init = order.drop_last();
        let x = order.last();
        assert(partition_spec(init).2.is_none());
        assert(init.no_duplicates()) by {
            assert forall|i: int, j: int| 0 <= i < init.len() && 0 <= j < init.len() && i != j implies init[i]
                != init[j] by {
                assert(init[i] == order[i] && init[j] == order[j]);
            }
        }
        lemma_partition_covers_joints(init);
        lemma_partition_members(init);
        let (t0, c0, e0) = partition_spec(init);
        let (t1, c1, e1) = partition_spec(order);
        assert(!init.contains(x)) by {
            if init.contains(x) {
                let i = choose|i: int| 0 <= i < init.len() && init[i] == x;
                assert(order[i] == order[order.len() - 1]);
            }
        }
        assert(!t0.contains(x)) by {
            if t0.contains(x) {
                let i = choose|i: int| 0 <= i < t0.len() && t0[i] == x;
                assert(init.contains(t0[i]));
            }
        }
        assert(!c0.contains(x)) by {
            if c0.contains(x) {
                let i = choose|i: int| 0 <= i < c0.len() && c0[i] == x;
                assert(init.contains(c0[i]));
            }
        }
        assert forall|k: int| 0 <= k < order.len() implies (t1.contains(#[trigger] order[k]) != c1.contains(
            order[k],
        )) by {
            if k < init.len() {
                assert(init[k] == order[k]);
                assert(t0.contains(init[k]) != c0.contains(init[k]));
                assert(order[k] != x);
                if t0.contains(order[k]) {
                    let i = choose|i: int| 0 <= i < t0.len() && t0[i] == order[k];
                    assert(t1.contains(order[k])) by {
                        if t1 == t0.push(x) {
                            assert(t1[i] == order[k]);
                        }
                    }
                }
                if c0.contains(order[k]) {
                    let i = choose|i: int| 0 <= i < c0.len() && c0[i] == order[k];
                    assert(c1.contains(order[k])) by {
                        if c1 == c0.push(x) {
                            assert(c1[i] == order[k]);
                        }
                    }
                }
                if t1.contains(order[k]) && t1 == t0.push(x) {
                    let i = choose|i: int| 0 <= i < t1.len() && t1[i] == order[k];
                    if i < t0.len() {
                        assert(t0[i] == order[k]);
                    }
                }
                if c1.contains(order[k]) && c1 == c0.push(x) {
                    let i = choose|i: int| 0 <= i < c1.len() && c1[i] == order[k];
                    if i < c0.len() {
                        assert(c0[i] == order[k]);
                    }
                }
            } else {
                if t1 == t0.push(x) {
                    assert(t1[t1.len() - 1] == x);
                    assert(c1 == c0);
                } else {
                    assert(c1 == c0.push(x));
                    assert(c1[c1.len() - 1] == x);
                }
            }
        }
    }
}


/// The identifiers of the bodies, as raw numbers.
pub open spec fn body_numbers(bodies: Seq<Body>) -> Seq<u32> {
    bodies.map_values(|b: Body| b.id.0)
}

/// Every joint of `order` joins two vertices of `v`.
spec fn joints_within(order: Seq<Joint>, v: Seq<u32>) -> bool {
    forall|k: int| 0 <= k < order.len() ==> v.contains(i_body(#[trigger] order[k])) && v.contains(j_body(order[k]))
}

/// Each tree joint joins two components into one, so the tree joints and
/// the components of the tree add up to the number of vertices.
proof fn lemma_partition_tree_count(order: Seq<Joint>, v: Seq<u32>)
    requires
        partition_spec(order).2.is_none(),
        v.no_duplicates(),
        joints_within(order, v),
    ensures
        components(joint_graph(partition_spec(order).0), v) + partition_spec(order).0.len() == v.len(),
    decreases order.len(),
{
    if order.len() == 0 {
        let g = joint_graph(Seq::<Joint>::empty());
        assert forall|x: u32, y: u32| reaches(g, x, y) implies x == y by {
            lemma_no_joints_reaches(x, y);
        }
        lemma_components_apart(g, v);
    } else {
        let init = order.drop_last();
        let joint = order.last();
        assert(partition_spec(init).2.is_none());
        assert(joints_within(init, v)) by {
            assert forall|k: int| 0 <= k < init.len() implies v.contains(i_body(#[trigger] init[k])) && v.contains(
                j_body(init[k]),
            ) by {
                assert(init[k] == order[k]);
            }
        }
        lemma_partition_tree_count(init, v);
        let t0 = partition_spec(init).0;
        let t1 = partition_spec(order).0;
        if t1 != t0 {
            assert(t1 == t0.push(joint));
            lemma_joint_graph_push(t0, joint);
            assert(v.contains(i_body(order[order.len() - 1])));
            let a = choose|a: int| 0 <= a < v.len() && v[a] == i_body(joint);
            let b = choose|b: int| 0 <= b < v.len() && v[b] == j_body(joint);
            lemma_components_merge(joint_graph(t0), v, a, b);
            assert(joint_graph(t1) == with_edge(joint_graph(t0), v[a], v[b]));
        }
    }
}

/// Sequences without repeats that hold the same entries are equally long.
proof fn lemma_same_members_len(s: Seq<u32>, t: Seq<u32>)
    requires
        s.no_duplicates(),
        t.no_duplicates(),
        forall|i: int| 0 <= i < s.len() ==> t.contains(#[trigger] s[i]),
        forall|i: int| 0 <= i < t.len() ==> s.contains(#[trigger] t[i]),
    ensures
        s.len() == t.len(),
{
    s.unique_seq_to_set();
    t.unique_seq_to_set();
    assert forall|x: u32| s.to_set().contains(x) <==> t.to_set().contains(x) by {
        if s.contains(x) {
            let i = choose|i: int| 0 <= i < s.len() && s[i] == x;
            assert(t.contains(s[i]));
        }
        if t.contains(x) {
            let i = choose|i: int| 0 <= i < t.len() && t[i] == x;
            assert(s.contains(t[i]));
        }
    }
    assert(s.to_set() =~= t.to_set());
}

/// What a valid model brings to its role order: the order has no repeats
/// and its joints join bodies of the model.
proof fn lemma_valid_role_order(bodies: Seq<Body>, joints: Seq<Joint>)
    requires
        valid_model(bodies, joints),
    ensures
        is_role_order(role_order_of(joints), joints),
        role_order_of(joints).no_duplicates(),
        joints_within(role_order_of(joints), body_numbers(bodies)),
        body_numbers(bodies).no_duplicates(),
        body_numbers(bodies).contains(0),
{
    let order = role_order_of(joints);
    let v = body_numbers(bodies);
    lemma_role_order_exists(joints);
    lemma_first_joint_error_none(bodies, joints);
    assert(order.no_duplicates()) by {
        assert forall|a: int, b: int| 0 <= a < order.len() && 0 <= b < order.len() && a != b implies order[a]
            != order[b] by {
            if a < b {
                assert(role_key(order[a]) < role_key(order[b]));
            } else {
                assert(role_key(order[b]) < role_key(order[a]));
            }
        }
    }
    assert forall|k: int| 0 <= k < order.len() implies v.contains(i_body(#[trigger] order[k])) && v.contains(
        j_body(order[k]),
    ) by {
        assert(joints.contains(order[k]));
        let q = choose|q: int| 0 <= q < joints.len() && joints[q] == order[k];
        assert(joint_reference_error(bodies, joints[q]).is_none());
        let a = choose|a: int| 0 <= a < bodies.len() && (#[trigger] bodies[a]).id == order[k].i_marker.body_id;
        let b = choose|b: int| 0 <= b < bodies.len() && (#[trigger] bodies[b]).id == order[k].j_marker.body_id;
        assert(v[a] == i_body(order[k]));
        assert(v[b] == j_body(order[k]));
    }
    assert(v.no_duplicates()) by {
        assert forall|a: int, b: int| 0 <= a < v.len() && 0 <= b < v.len() && a != b implies v[a] != v[b] by {
            assert(bodies[a].id != bodies[b].id);
        }
    }
    let g = choose|a: int| 0 <= a < bodies.len() && (#[trigger] bodies[a]).id == BodyId(0);
    assert(v[g] == 0);
}

/// Without a cycle error or a free body, a valid model's tree has one joint
/// fewer than the model has bodies, and the other joints close loops.
proof fn lemma_tree_joint_count(bodies: Seq<Body>, joints: Seq<Joint>)
    requires
        valid_model(bodies, joints),
        partition_spec(role_order_of(joints)).2.is_none(),
        first_free_body(bodies, partition_spec(role_order_of(joints)).0).is_none(),
    ensures
        partition_spec(role_order_of(joints)).0.len() + 1 == bodies.len(),
        partition_spec(role_order_of(joints)).0.len() + partition_spec(role_order_of(joints)).1.len()
            == joints.len(),
{
    let order = role_order_of(joints);
    let v = body_numbers(bodies);
    let tree = partition_spec(order).0;
    let gt = joint_graph(tree);
    lemma_valid_role_order(bodies, joints);
    lemma_partition_tree_count(order, v);
    lemma_partition_covers_joints(order);
    lemma_first_free_body_none(bodies, tree);
    lemma_joint_graph_push(tree, arbitrary());
    assert forall|i: int| 0 <= i < v.len() implies reaches(gt, v[0], #[trigger] v[i]) by {
        assert(connected_to_ground(tree, bodies[0].id));
        assert(connected_to_ground(tree, bodies[i].id));
        lemma_reaches_symmetric(gt, 0, v[0]);
        lemma_reaches_trans(gt, v[0], 0, v[i]);
    }
    lemma_components_one(gt, v);
}

/// The arcs of the tree joints of a valid model without a cycle error or a
/// free body.
pub open spec fn spanning_tree_ready(bodies: Seq<Body>, joints: Seq<Joint>) -> bool {
    &&& valid_model(bodies, joints)
    &&& partition_spec(role_order_of(joints)).2.is_none()
    &&& first_free_body(bodies, partition_spec(role_order_of(joints)).0).is_none()
}

/// A breadth-first traversal of the tree joints reaches exactly the bodies
/// of the model, so it emits one arc fewer than the model has bodies.
proof fn lemma_traversal_len(bodies: Seq<Body>, joints: Seq<Joint>, out: Seq<Arc>)
    requires
        spanning_tree_ready(bodies, joints),
        is_breadth_first(out, tree_arcs(partition_spec(role_order_of(joints)).0)),
    ensures
        out.len() + 1 == bodies.len(),
{
    let order = role_order_of(joints);
    let v = body_numbers(bodies);
    let tree = partition_spec(order).0;
    let reached = reached_bodies(out);
    lemma_valid_role_order(bodies, joints);
    lemma_partition_members(order);
    lemma_first_free_body_none(bodies, tree);
    lemma_tree_arcs_graph(tree);
    lemma_reached_push(out, arbitrary());
    lemma_tree_arcs_index(tree);
    assert forall|i: int| 0 <= i < v.len() implies reached.contains(#[trigger] v[i]) by {
        assert(connected_to_ground(tree, bodies[i].id));
        assert(reaches(arc_graph(tree_arcs(tree)), 0, bodies[i].id.0));
    }
    assert forall|i: int| 0 <= i < reached.len() implies v.contains(#[trigger] reached[i]) by {
        if i > 0 {
            let arc = out[i - 1];
            assert(tree_arcs(tree).contains(arc));
            let q = choose|q: int| 0 <= q < tree_arcs(tree).len() && tree_arcs(tree)[q] == arc;
            let m = q / 2;
            assert(joint_arcs(tree[m])[0] == tree_arcs(tree)[2 * m]);
            assert(order.contains(tree[m]));
            let r = choose|r: int| 0 <= r < order.len() && order[r] == tree[m];
            assert(v.contains(i_body(order[r])) && v.contains(j_body(order[r])));
        }
    }
    lemma_same_members_len(reached, v);
}

/// `a` is one of the two arcs of `joint`.
pub open spec fn arc_of(joint: Joint, a: Arc) -> bool {
    a == joint_arcs(joint)[0] || a == joint_arcs(joint)[1]
}

/// The position of a tree joint that `a` is an arc of.
spec fn arc_joint_index(tree: Seq<Joint>, a: Arc) -> int {
    choose|m: int| 0 <= m < tree.len() && arc_of(tree[m], a)
}

/// Distinct indices below `n`, `n` of them, are all indices below `n`.
proof fn lemma_distinct_indices_full(s: Seq<int>, n: int, m: int)
    requires
        s.no_duplicates(),
        s.len() == n,
        forall|i: int| 0 <= i < s.len() ==> 0 <= #[trigger] s[i] < n,
        0 <= m < n,
    ensures
        s.contains(m),
{
    if !s.contains(m) {
        s.unique_seq_to_set();
        vstd::set_lib::lemma_int_range(0, n);
        let rest = vstd::set_lib::set_int_range(0, n).remove(m);
        assert(s.to_set().subset_of(rest));
        vstd::set_lib::lemma_len_subset(s.to_set(), rest);
    }
}

/// A breadth-first traversal of the tree joints emits an arc of every tree
/// joint: it emits one arc fewer than there are bodies, never two of one
/// joint, and the tree has that many joints.
proof fn lemma_traversal_uses_tree_joint(bodies: Seq<Body>, joints: Seq<Joint>, out: Seq<Arc>, m: int)
    requires
        spanning_tree_ready(bodies, joints),
        is_breadth_first(out, tree_arcs(partition_spec(role_order_of(joints)).0)),
        0 <= m < partition_spec(role_order_of(joints)).0.len(),
    ensures
        exists|k: int| 0 <= k < out.len() && arc_of(partition_spec(role_order_of(joints)).0[m], #[trigger] out[k]),
{
    let tree = partition_spec(role_order_of(joints)).0;
    let reached = reached_bodies(out);
    lemma_traversal_len(bodies, joints, out);
    lemma_tree_joint_count(bodies, joints);
    lemma_reached_push(out, arbitrary());
    lemma_tree_arcs_index(tree);
    assert forall|k: int| 0 <= k < out.len() implies exists|m2: int| 0 <= m2 < tree.len() && arc_of(
        tree[m2],
        #[trigger] out[k],
    ) by {
        assert(tree_arcs(tree).contains(out[k]));
        let q = choose|q: int| 0 <= q < tree_arcs(tree).len() && tree_arcs(tree)[q] == out[k];
        let m2 = q / 2;
        assert(joint_arcs(tree[m2])[0] == tree_arcs(tree)[2 * m2]);
        assert(arc_of(tree[m2], out[k]));
    }
    let s = Seq::new(out.len(), |k: int| arc_joint_index(tree, out[k]));
    assert forall|k: int| 0 <= k < s.len() implies 0 <= #[trigger] s[k] < tree.len() && arc_of(
        tree[s[k]],
        out[k],
    ) by {
        assert(exists|m2: int| 0 <= m2 < tree.len() && arc_of(tree[m2], out[k]));
    }
    assert(s.no_duplicates()) by {
        assert forall|k: int, l: int| 0 <= k < s.len() && 0 <= l < s.len() && k != l implies s[k] != s[l] by {
            if s[k] == s[l] {
                assert(arc_of(tree[s[k]], out[k]) && arc_of(tree[s[k]], out[l]));
                if out[k] == out[l] {
                    assert(reached[k + 1] == reached[l + 1]);
                } else if k < l {
                    // `out[l]` leads back to the source of `out[k]`.
                    let p = choose|p: int| 0 <= p <= k && reached[p] == (#[trigger] out[k]).from.0;
                    assert(reached[l + 1] == out[l].to.0);
                    assert(out[l].to == out[k].from);
                } else {
                    let p = choose|p: int| 0 <= p <= l && reached[p] == (#[trigger] out[l]).from.0;
                    assert(reached[k + 1] == out[k].to.0);
                    assert(out[k].to == out[l].from);
                }
            }
        }
    }
    lemma_distinct_indices_full(s, tree.len() as int, m);
    let k = choose|k: int| 0 <= k < s.len() && s[k] == m;
    assert(arc_of(tree[m], out[k]));
}

/// The breadth-first spanning tree is unique: in a valid model without a
/// cycle error or a free body, any two breadth-first traversals of the tree
/// joints are the same sequence of arcs.
pub proof fn lemma_tree_traversal_unique(bodies: Seq<Body>, joints: Seq<Joint>, o1: Seq<Arc>, o2: Seq<Arc>)
    requires
        spanning_tree_ready(bodies, joints),
        is_breadth_first(o1, tree_arcs(partition_spec(role_order_of(joints)).0)),
        is_breadth_first(o2, tree_arcs(partition_spec(role_order_of(joints)).0)),
    ensures
        o1 == o2,
{
    let tree = partition_spec(role_order_of(joints)).0;
    lemma_tree_arcs_index(tree);
    assert forall|a: Seq<Arc>, b: Seq<Arc>, i: int|
        is_breadth_first(a, tree_arcs(tree)) && is_breadth_first(b, tree_arcs(tree)) && 0 <= i < a.len()
        implies #[trigger] emits_either_way(b, a[i]) by {
        assert(tree_arcs(tree).contains(a[i]));
        let q = choose|q: int| 0 <= q < tree_arcs(tree).len() && tree_arcs(tree)[q] == a[i];
        let m = q / 2;
        assert(joint_arcs(tree[m])[0] == tree_arcs(tree)[2 * m]);
        lemma_traversal_uses_tree_joint(bodies, joints, b, m);
        let k = choose|k: int| 0 <= k < b.len() && arc_of(tree[m], #[trigger] b[k]);
        assert(b[k] == a[i] || (b[k].from == a[i].to && b[k].to == a[i].from));
    }
    assert(covers(o1, o2));
    assert(covers(o2, o1));
    lemma_breadth_first_unique(o1, o2, tree_arcs(tree), tree_arcs(tree));
}

/// In a valid model whose topology was built, the spanning tree has one
/// joint, and one edge, fewer than the model has bodies, and every other
/// joint closes a loop: the closure joints number the joints beyond those.
pub proof fn lemma_topology_counts(bodies: Seq<Body>, joints: Seq<Joint>, topology: KinematicTopology)
    requires
        valid_model(bodies, joints),
        topology_matches(bodies, partition_spec(role_order_of(joints)), Ok(topology)),
    ensures
        partition_spec(role_order_of(joints)).0.len() + 1 == bodies.len(),
        topology.tree_edge_arcs().len() + 1 == bodies.len(),
        topology.closure_id_seq().len() + bodies.len() == joints.len() + 1,
{
    lemma_tree_joint_count(bodies, joints);
    lemma_traversal_len(bodies, joints, topology.tree_edge_arcs());
    assert(topology.closure_id_seq().len() == partition_spec(role_order_of(joints)).1.len());
}

/// A valid model with one joint fewer than bodies is an open tree: once its
/// topology is built, no joint closes a loop.
pub proof fn lemma_open_tree_has_no_closure_joints(
    bodies: Seq<Body>,
    joints: Seq<Joint>,
    topology: KinematicTopology,
)
    requires
        valid_model(bodies, joints),
        topology_matches(bodies, partition_spec(role_order_of(joints)), Ok(topology)),
        joints.len() + 1 == bodies.len(),
    ensures
        topology.closure_id_seq().len() == 0,
{
    lemma_topology_counts(bodies, joints, topology);
}

} // verus!
