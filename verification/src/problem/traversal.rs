//! Breadth-first traversal from ground over directed arcs between bodies.
//!
//! Both the directed kinematic tree and the spanning tree of the topology are
//! built by this traversal: it starts at ground, takes bodies in the order in
//! which they were first reached, and from each body follows its outgoing arcs
//! in ascending order of (target body, joint).
use vstd::prelude::*;

use crate::graph::{
    is_closed, lemma_closed_holds_reached, lemma_distinct_indices_bound, lemma_reaches_refl,
    lemma_reaches_step, reaches,
};
use crate::model::{BodyId, JointId};
use crate::problem::tree::TraversalDirection;

verus! {

/// A directed arc from one body to another through a joint.
#[derive(Clone, Copy, Debug, PartialEq, Eq, Structural)]
pub struct Arc {
    pub from: BodyId,
    pub to: BodyId,
    pub joint_id: JointId,
    pub direction: TraversalDirection,
}

/// Arcs leaving one body are taken in ascending order of this key: first the
/// target body, then the joint.
pub open spec fn arc_key(a: Arc) -> int {
    a.to.0 as int * 0x1_0000_0000 + a.joint_id.0 as int
}

/// No two arcs share their source, target and joint.
pub open spec fn arcs_unique(arcs: Seq<Arc>) -> bool {
    forall|k: int, l: int|
        0 <= k < arcs.len() && 0 <= l < arcs.len() && k != l && (#[trigger] arcs[k]).from == (
        #[trigger] arcs[l]).from ==> arc_key(arcs[k]) != arc_key(arcs[l])
}

/// The directed graph on bodies whose edges are the arcs.
pub open spec fn arc_graph(arcs: Seq<Arc>) -> spec_fn(u32, u32) -> bool {
    |x: u32, y: u32|
        exists|k: int| 0 <= k < arcs.len() && (#[trigger] arcs[k]).from.0 == x && arcs[k].to.0 == y
}

/// The bodies a traversal has reached, in order: ground, then the target of
/// each emitted arc.
pub open spec fn reached_bodies(out: Seq<Arc>) -> Seq<u32> {
    seq![0u32] + out.map_values(|a: Arc| a.to.0)
}

/// The position of `x` in `s`.
pub open spec fn position_of(s: Seq<u32>, x: u32) -> int {
    choose|p: int| 0 <= p < s.len() && s[p] == x
}

/// `out` is the breadth-first traversal of `arcs` from ground:
/// each emitted arc is one of `arcs` and reaches a body not reached before;
/// the source of each arc was reached earlier; arcs are emitted in the order
/// in which their sources were reached, and arcs from one source in ascending
/// key order; and the reached bodies are exactly those that `arcs` connect to
/// ground.
pub open spec fn is_breadth_first(out: Seq<Arc>, arcs: Seq<Arc>) -> bool {
    let reached = reached_bodies(out);
    &&& forall|k: int| 0 <= k < out.len() ==> arcs.contains(#[trigger] out[k])
    &&& reached.no_duplicates()
    &&& forall|k: int|
        0 <= k < out.len() ==> exists|p: int| 0 <= p <= k && reached[p] == (#[trigger] out[k]).from.0
    &&& forall|k: int, l: int|
        0 <= k < l < out.len() ==> position_of(reached, (#[trigger] out[k]).from.0) <= position_of(
            reached,
            (#[trigger] out[l]).from.0,
        )
    &&& forall|k: int, l: int|
        0 <= k < l < out.len() && (#[trigger] out[k]).from == (#[trigger] out[l]).from ==> arc_key(
            out[k],
        ) < arc_key(out[l])
    &&& forall|b: u32| reached.contains(b) <==> reaches(arc_graph(arcs), 0, b)
}

/// The arcs leaving `from`, in ascending key order.
fn sorted_arcs_from(arcs: &Vec<Arc>, from: BodyId) -> (out: Vec<Arc>)
    requires
        arcs_unique(arcs@),
    ensures
        forall|i: int| 0 <= i < out@.len() ==> arcs@.contains(#[trigger] out@[i]) && out@[i].from == from,
        forall|i: int, j: int| 0 <= i < j < out@.len() ==> arc_key(#[trigger] out@[i]) < arc_key(#[trigger] out@[j]),
        forall|k: int| 0 <= k < arcs@.len() && (#[trigger] arcs@[k]).from == from ==> out@.contains(arcs@[k]),
{
    let n = arcs.len();
    let mut out: Vec<Arc> = Vec::new();
    let ghost mut picked: Seq<int> = Seq::empty();
    let mut last: Option<u64> = None;
    loop
        invariant
            n == arcs@.len(),
            arcs_unique(arcs@),
            out@.len() == picked.len(),
            forall|i: int| 0 <= i < picked.len() ==> 0 <= #[trigger] picked[i] < n && arcs@[picked[i]] == out@[i],
            forall|i: int| 0 <= i < out@.len() ==> (#[trigger] out@[i]).from == from,
            forall|i: int, j: int| 0 <= i < j < out@.len() ==> arc_key(#[trigger] out@[i]) < arc_key(#[trigger] out@[j]),
            last is None ==> out@.len() == 0,
            last matches Some(v) ==> out@.len() > 0 && v == arc_key(out@.last()),
            forall|k: int|
                0 <= k < n && (#[trigger] arcs@[k]).from == from && (last matches Some(v) && arc_key(arcs@[k]) <= v)
                    ==> out@.contains(arcs@[k]),
        decreases n - out@.len(),
    {
        // Find the arc from `from` with the least key above `last`.
        let mut best: Option<usize> = None;
        let mut k: usize = 0;
        while k < n
            invariant
                k <= n,
                n == arcs@.len(),
                best matches Some(b) ==> b < k && arcs@[b as int].from == from && (last matches Some(v) ==> arc_key(arcs@[b as int]) > v),
                forall|m: int|
                    0 <= m < k && (#[trigger] arcs@[m]).from == from && (last matches Some(v) ==> arc_key(arcs@[m]) > v)
                        ==> (best matches Some(b) && arc_key(arcs@[b as int]) <= arc_key(arcs@[m])),
            decreases n - k,
        {
            let a = arcs[k];
            if a.from == from {
                let key: u64 = a.to.0 as u64 * 0x1_0000_0000u64 + a.joint_id.0 as u64;
                let above = match last {
                    Some(v) => key > v,
                    None => true,
                };
                if above {
                    match best {
                        Some(b) => {
                            let bk: u64 = arcs[b].to.0 as u64 * 0x1_0000_0000u64 + arcs[b].joint_id.0 as u64;
                            if key < bk {
                                best = Some(k);
                            }
                        },
                        None => {
                            best = Some(k);
                        },
                    }
                }
            }
            k = k + 1;
        }
        match best {
            Some(b) => {
                let a = arcs[b];
                let key: u64 = a.to.0 as u64 * 0x1_0000_0000u64 + a.joint_id.0 as u64;
                proof {
                    assert(arcs@.contains(arcs@[b as int]));
                    assert forall|k: int|
                        0 <= k < n && (#[trigger] arcs@[k]).from == from && arc_key(arcs@[k]) <= key
                            implies out@.push(a).contains(arcs@[k]) by {
                        if arc_key(arcs@[k]) == key {
                            if k != b {
                                assert(arc_key(arcs@[k]) != arc_key(arcs@[b as int]));
                            }
                            assert(out@.push(a)[out@.len() as int] == a);
                        } else {
                            assert(out@.contains(arcs@[k]));
                            let i = choose|i: int| 0 <= i < out@.len() && out@[i] == arcs@[k];
                            assert(out@.push(a)[i] == arcs@[k]);
                        }
                    }
                    picked = picked.push(b as int);
                }
                out.push(a);
                last = Some(key);
                proof {
                    assert(picked.no_duplicates()) by {
                        assert forall|i: int, j: int| 0 <= i < picked.len() && 0 <= j < picked.len() && i != j implies picked[i] != picked[j] by {
                            if i < j {
                                assert(arc_key(out@[i]) < arc_key(out@[j]));
                            } else {
                                assert(arc_key(out@[j]) < arc_key(out@[i]));
                            }
                        }
                    }
                    lemma_distinct_indices_bound(picked, n as int);
                }
            },
            None => {
                proof {
                    assert forall|k: int| 0 <= k < n && (#[trigger] arcs@[k]).from == from implies out@.contains(arcs@[k]) by {
                        if !(last matches Some(v) && arc_key(arcs@[k]) <= v) {
                        }
                    }
                    assert forall|i: int| 0 <= i < out@.len() implies arcs@.contains(#[trigger] out@[i]) by {
                        assert(arcs@[picked[i]] == out@[i]);
                    }
                }
                return out;
            },
        }
    }
}

pub proof fn lemma_reached_push(out: Seq<Arc>, a: Arc)
    ensures
        reached_bodies(out.push(a)) =~= reached_bodies(out).push(a.to.0),
        reached_bodies(out).len() == out.len() + 1,
        reached_bodies(out)[0] == 0,
        forall|k: int| 0 <= k < out.len() ==> reached_bodies(out)[k + 1] == (#[trigger] out[k]).to.0,
{
    assert(out.push(a).map_values(|b: Arc| b.to.0) =~= out.map_values(|b: Arc| b.to.0).push(a.to.0));
}

/// Whether `body` is one of `order`.
fn contains_body(order: &Vec<BodyId>, body: BodyId) -> (found: bool)
    ensures
        found == order@.contains(body),
{
    let mut k: usize = 0;
    while k < order.len()
        invariant
            k <= order@.len(),
            forall|m: int| 0 <= m < k ==> order@[m] != body,
        decreases order@.len() - k,
    {
        if order[k] == body {
            return true;
        }
        k = k + 1;
    }
    false
}

/// Traverses `arcs` breadth-first from ground.
#[verifier::loop_isolation(false)]
pub fn breadth_first(arcs: &Vec<Arc>) -> (out: Vec<Arc>)
    requires
        arcs_unique(arcs@),
    ensures
        is_breadth_first(out@, arcs@),
{
    let n = arcs.len();
    let ghost graph = arc_graph(arcs@);
    let mut out: Vec<Arc> = Vec::new();
    let mut order: Vec<BodyId> = Vec::new();
    order.push(BodyId(0));
    let ghost mut parent_pos: Seq<int> = Seq::empty();
    let ghost mut arc_idx: Seq<int> = Seq::empty();
    let mut head: usize = 0;
    proof {
        lemma_reaches_refl(graph, 0);
        lemma_reached_push(out@, arbitrary());
        assert(reached_bodies(out@) =~= seq![0u32]);
    }
    while head < order.len()
        invariant
            n == arcs@.len(),
            order@.len() == out@.len() + 1,
            forall|m: int| 0 <= m < order@.len() ==> (#[trigger] order@[m]).0 == reached_bodies(out@)[m],
            head <= order@.len(),
            reached_bodies(out@).no_duplicates(),
            forall|k: int| 0 <= k < out@.len() ==> arcs@.contains(#[trigger] out@[k]),
            parent_pos.len() == out@.len(),
            forall|k: int|
                0 <= k < out@.len() ==> 0 <= #[trigger] parent_pos[k] <= k && parent_pos[k] < head
                    && reached_bodies(out@)[parent_pos[k]] == out@[k].from.0,
            forall|k: int, l: int| 0 <= k < l < out@.len() ==> #[trigger] parent_pos[k] <= #[trigger] parent_pos[l],
            forall|k: int, l: int|
                0 <= k < l < out@.len() && #[trigger] parent_pos[k] == #[trigger] parent_pos[l] ==> arc_key(out@[k])
                    < arc_key(out@[l]),
            arc_idx.len() == out@.len(),
            arc_idx.no_duplicates(),
            forall|k: int| 0 <= k < out@.len() ==> 0 <= #[trigger] arc_idx[k] < n && arcs@[arc_idx[k]] == out@[k],
            forall|m: int| 0 <= m < order@.len() ==> reaches(graph, 0, #[trigger] reached_bodies(out@)[m]),
            forall|h: int, j: int|
                0 <= h < head && 0 <= j < n && (#[trigger] arcs@[j]).from.0 == #[trigger] reached_bodies(out@)[h]
                    ==> reached_bodies(out@).contains(arcs@[j].to.0),
        decreases n + 1 - head,
    {
        proof {
            lemma_distinct_indices_bound(arc_idx, n as int);
        }
        let parent = order[head];
        let nbrs = sorted_arcs_from(arcs, parent);
        let ghost round_start = out@.len();
        let ghost reached0 = reached_bodies(out@);
        let ghost mut from_nbr: Seq<int> = Seq::empty();
        let mut i: usize = 0;
        while i < nbrs.len()
            invariant
                i <= nbrs@.len(),
                n == arcs@.len(),
                head < order@.len(),
                parent == order@[head as int],
                order@.len() == out@.len() + 1,
                forall|m: int| 0 <= m < order@.len() ==> (#[trigger] order@[m]).0 == reached_bodies(out@)[m],
                round_start <= out@.len(),
                reached0 == reached_bodies(out@).take(reached0.len() as int),
                reached0.len() == round_start + 1,
                reached_bodies(out@).no_duplicates(),
                forall|k: int| 0 <= k < out@.len() ==> arcs@.contains(#[trigger] out@[k]),
                parent_pos.len() == out@.len(),
                forall|k: int|
                    0 <= k < out@.len() ==> 0 <= #[trigger] parent_pos[k] <= k && parent_pos[k] <= head
                        && reached_bodies(out@)[parent_pos[k]] == out@[k].from.0,
                forall|k: int| 0 <= k < round_start ==> #[trigger] parent_pos[k] < head,
                from_nbr.len() == out@.len() - round_start,
                forall|k: int|
                    round_start <= k < out@.len() ==> #[trigger] parent_pos[k] == head && 0 <= from_nbr[k - round_start] < i
                        && nbrs@[from_nbr[k - round_start]] == out@[k],
                forall|k: int, l: int| 0 <= k < l < out@.len() ==> #[trigger] parent_pos[k] <= #[trigger] parent_pos[l],
                forall|k: int, l: int|
                    0 <= k < l < out@.len() && #[trigger] parent_pos[k] == #[trigger] parent_pos[l] ==> arc_key(out@[k])
                        < arc_key(out@[l]),
                arc_idx.len() == out@.len(),
                arc_idx.no_duplicates(),
                forall|k: int| 0 <= k < out@.len() ==> 0 <= #[trigger] arc_idx[k] < n && arcs@[arc_idx[k]] == out@[k],
                forall|m: int| 0 <= m < order@.len() ==> reaches(graph, 0, #[trigger] reached_bodies(out@)[m]),
                forall|h: int, j: int|
                    0 <= h < head && 0 <= j < n && (#[trigger] arcs@[j]).from.0 == #[trigger] reached_bodies(out@)[h]
                        ==> reached_bodies(out@).contains(arcs@[j].to.0),
                forall|j: int| 0 <= j < i ==> reached_bodies(out@).contains((#[trigger] nbrs@[j]).to.0),
            decreases nbrs@.len() - i,
        {
            let e = nbrs[i];
            let seen = contains_body(&order, e.to);
            if !seen {
                let ghost old_out = out@;
                let ghost old_reached = reached_bodies(out@);
                let ghost old_parent_pos = parent_pos;
                let ghost old_from_nbr = from_nbr;
                proof {
                    lemma_reached_push(out@, e);
                    let j = choose|j: int| 0 <= j < n && arcs@[j] == e;
                    assert forall|k: int| 0 <= k < arc_idx.len() implies arc_idx[k] != j by {
                        assert(old_reached[k + 1] == out@[k].to.0);
                        assert(order@[k + 1].0 == old_reached[k + 1]);
                    }
                    arc_idx = arc_idx.push(j);
                    parent_pos = parent_pos.push(head as int);
                    from_nbr = from_nbr.push(i as int);
                    assert(old_reached[head as int] == e.from.0);
                    assert(graph(e.from.0, e.to.0));
                    lemma_reaches_step(graph, 0, e.from.0, e.to.0);
                }
                out.push(e);
                order.push(e.to);
                proof {
                    let reached = reached_bodies(out@);
                    assert(reached == old_reached.push(e.to.0));
                    assert forall|a: int, b: int| 0 <= a < reached.len() && 0 <= b < reached.len() && a != b implies reached[a] != reached[b] by {
                        if a == reached.len() - 1 {
                            assert(order@[b].0 == old_reached[b]);
                        } else if b == reached.len() - 1 {
                            assert(order@[a].0 == old_reached[a]);
                        }
                    }
                    assert forall|k: int| round_start <= k < out@.len() implies #[trigger] parent_pos[k] == head
                        && 0 <= from_nbr[k - round_start] < i + 1 && nbrs@[from_nbr[k - round_start]] == out@[k] by {
                        if k < out@.len() - 1 {
                            assert(old_out[k] == out@[k]);
                            assert(old_parent_pos[k] == parent_pos[k]);
                            assert(old_from_nbr[k - round_start] == from_nbr[k - round_start]);
                        }
                    }
                    assert forall|h: int, j: int|
                        0 <= h < head && 0 <= j < n && (#[trigger] arcs@[j]).from.0 == #[trigger] reached[h]
                            implies reached.contains(arcs@[j].to.0) by {
                        assert(reached[h] == old_reached[h]);
                        assert(old_reached.contains(arcs@[j].to.0));
                        let w = choose|w: int| 0 <= w < old_reached.len() && old_reached[w] == arcs@[j].to.0;
                        assert(reached[w] == old_reached[w]);
                    }
                    assert forall|j: int| 0 <= j < i + 1 implies reached.contains((#[trigger] nbrs@[j]).to.0) by {
                        if j == i {
                            assert(reached[reached.len() - 1] == e.to.0);
                        } else {
                            let w = choose|w: int| 0 <= w < old_reached.len() && old_reached[w] == nbrs@[j].to.0;
                            assert(reached[w] == old_reached[w]);
                        }
                    }
                    assert(reached0 == reached.take(reached0.len() as int));
                    assert forall|k: int, l: int|
                        0 <= k < l < out@.len() && #[trigger] parent_pos[k] == #[trigger] parent_pos[l] implies arc_key(out@[k])
                            < arc_key(out@[l]) by {
                        if l == out@.len() - 1 {
                            let j = from_nbr[k - round_start];
                            assert(arc_key(nbrs@[j]) < arc_key(nbrs@[i as int]));
                        }
                    }
                }
            } else {
                proof {
                    let m = choose|m: int| 0 <= m < order@.len() && order@[m] == e.to;
                    assert(reached_bodies(out@)[m] == e.to.0);
                    assert forall|k: int| round_start <= k < out@.len() implies #[trigger] parent_pos[k] == head
                        && 0 <= from_nbr[k - round_start] < i + 1 && nbrs@[from_nbr[k - round_start]] == out@[k] by {
                        assert(parent_pos[k] == head);
                        assert(from_nbr[k - round_start] < i);
                    }
                }
            }
            let ghost old_i = i as int;
            i = i + 1;
            proof {
                assert forall|k: int| round_start <= k < out@.len() implies #[trigger] parent_pos[k] == head && 0
                    <= from_nbr[k - round_start] < i && nbrs@[from_nbr[k - round_start]] == out@[k] by {
                    assert(parent_pos[k] == head);
                    assert(from_nbr[k - round_start] < old_i + 1);
                }
            }
        }
        proof {
            let reached = reached_bodies(out@);
            assert forall|h: int, j: int|
                0 <= h < head + 1 && 0 <= j < n && (#[trigger] arcs@[j]).from.0 == #[trigger] reached[h]
                    implies reached.contains(arcs@[j].to.0) by {
                if h == head {
                    assert(reached[h] == reached0[h]);
                    assert(order@[h].0 == reached[h]);
                    assert(arcs@[j].from == parent);
                    assert(nbrs@.contains(arcs@[j]));
                    let w = choose|w: int| 0 <= w < nbrs@.len() && nbrs@[w] == arcs@[j];
                    assert(reached.contains(nbrs@[w].to.0));
                }
            }
        }
        head = head + 1;
    }
    proof {
        let reached = reached_bodies(out@);
        let s = |x: u32| reached.contains(x);
        assert forall|x: u32, y: u32| s(x) && #[trigger] graph(x, y) implies s(y) by {
            let h = choose|h: int| 0 <= h < reached.len() && reached[h] == x;
            let j = choose|j: int| 0 <= j < arcs@.len() && (#[trigger] arcs@[j]).from.0 == x && arcs@[j].to.0 == y;
            assert(arcs@[j].from.0 == reached[h]);
        }
        assert(s(0)) by {
            assert(reached[0] == 0);
        }
        assert forall|b: u32| reached.contains(b) <==> reaches(graph, 0, b) by {
            if reaches(graph, 0, b) {
                lemma_closed_holds_reached(graph, s, 0, b);
            }
            if reached.contains(b) {
                let m = choose|m: int| 0 <= m < reached.len() && reached[m] == b;
                assert(reaches(graph, 0, reached[m]));
            }
        }
        assert forall|k: int| 0 <= k < out@.len() implies position_of(reached, (#[trigger] out@[k]).from.0)
            == parent_pos[k] by {
            let p = position_of(reached, out@[k].from.0);
            assert(reached[parent_pos[k]] == out@[k].from.0);
        }
        assert forall|k: int| 0 <= k < out@.len() implies exists|p: int| 0 <= p <= k && reached[p]
            == (#[trigger] out@[k]).from.0 by {
            assert(reached[parent_pos[k]] == out@[k].from.0);
        }
        assert forall|k: int, l: int| 0 <= k < l < out@.len() && (#[trigger] out@[k]).from == (#[trigger] out@[l]).from
            implies arc_key(out@[k]) < arc_key(out@[l]) by {
            assert(reached[parent_pos[k]] == out@[k].from.0);
            assert(reached[parent_pos[l]] == out@[l].from.0);
        }
        assert forall|k: int, l: int| 0 <= k < l < out@.len() implies position_of(reached, (#[trigger] out@[k]).from.0)
            <= position_of(reached, (#[trigger] out@[l]).from.0) by {
            assert(parent_pos[k] <= parent_pos[l]);
        }
    }
    out
}


/// In a sequence without repeats, the position of an entry is its index.
proof fn lemma_position_of_index(s: Seq<u32>, p: int)
    requires
        s.no_duplicates(),
        0 <= p < s.len(),
    ensures
        position_of(s, s[p]) == p,
{
    let q = position_of(s, s[p]);
    assert(0 <= q < s.len() && s[q] == s[p]);
}

/// `out` emits `a`, as it is or the other way round.
pub open spec fn emits_either_way(out: Seq<Arc>, a: Arc) -> bool {
    exists|l: int| 0 <= l < out.len() && (out[l] == a || (out[l].from == a.to && out[l].to == a.from))
}

/// Each arc of `o1` is emitted by `o2` too, as it is or the other way round.
pub open spec fn covers(o1: Seq<Arc>, o2: Seq<Arc>) -> bool {
    forall|i: int| 0 <= i < o1.len() ==> #[trigger] emits_either_way(o2, o1[i])
}

/// `o1` and `o2` are breadth-first traversals, of `arcs1` and `arcs2`,
/// each emitting the arcs of the other, in one direction or the other.
#[verifier::opaque]
spec fn traversal_pair(o1: Seq<Arc>, o2: Seq<Arc>, arcs1: Seq<Arc>, arcs2: Seq<Arc>) -> bool {
    &&& is_breadth_first(o1, arcs1)
    &&& is_breadth_first(o2, arcs2)
    &&& covers(o1, o2)
    &&& covers(o2, o1)
}

proof fn lemma_traversal_pair_symmetric(o1: Seq<Arc>, o2: Seq<Arc>, arcs1: Seq<Arc>, arcs2: Seq<Arc>)
    requires
        traversal_pair(o1, o2, arcs1, arcs2),
    ensures
        traversal_pair(o2, o1, arcs2, arcs1),
{
    reveal(traversal_pair);
}

/// When two such traversals agree on their first `k` arcs, the next arc of
/// the first is emitted by the second, the same way round, not earlier.
proof fn lemma_breadth_first_found_later(o1: Seq<Arc>, o2: Seq<Arc>, arcs1: Seq<Arc>, arcs2: Seq<Arc>, k: int) -> (l: int)
    requires
        traversal_pair(o1, o2, arcs1, arcs2),
        0 <= k < o1.len(),
        k <= o2.len(),
        forall|i: int| 0 <= i < k ==> o1[i] == o2[i],
    ensures
        k <= l < o2.len(),
        o2[l] == o1[k],
{
    reveal(traversal_pair);
    let r1 = reached_bodies(o1);
    let r2 = reached_bodies(o2);
    lemma_reached_push(o1, arbitrary());
    lemma_reached_push(o2, arbitrary());
    assert forall|i: int| 0 <= i <= k implies r1[i] == r2[i] by {
        if i > 0 {
            assert(r1[i] == o1[i - 1].to.0);
            assert(r2[i] == o2[i - 1].to.0);
        }
    }
    let a = o1[k];
    assert(emits_either_way(o2, o1[k]));
    let l = choose|l: int| 0 <= l < o2.len() && (o2[l] == a || (o2[l].from == a.to && o2[l].to == a.from));
    // The source of `a` was reached within the common part.
    let p = choose|p: int| 0 <= p <= k && r1[p] == (#[trigger] o1[k]).from.0;
    if o2[l] == a {
        if l < k {
            assert(o1[l] == a);
            assert(r1[l + 1] == r1[k + 1]);
        }
    } else {
        if l < k {
            // `o1` would emit the reverse of `a` before `a`: the target of
            // `a` would have been reached twice.
            assert(o1[l] == o2[l]);
            let q = choose|q: int| 0 <= q <= l && r1[q] == (#[trigger] o1[l]).from.0;
            assert(r1[q] == r1[k + 1]);
        } else {
            // `o2` would reach the source of `a` a second time.
            assert(r2[p] == a.from.0);
            assert(r2[l + 1] == a.from.0);
        }
    }
    l
}

/// Two breadth-first traversals that agree on their first `k` arcs and
/// cover each other agree on the next one too.
proof fn lemma_breadth_first_step(o1: Seq<Arc>, o2: Seq<Arc>, arcs1: Seq<Arc>, arcs2: Seq<Arc>, k: int)
    requires
        traversal_pair(o1, o2, arcs1, arcs2),
        0 <= k,
        k <= o1.len(),
        k <= o2.len(),
        forall|i: int| 0 <= i < k ==> o1[i] == o2[i],
    ensures
        k < o1.len() <==> k < o2.len(),
        k < o1.len() ==> o1[k] == o2[k],
{
    lemma_traversal_pair_symmetric(o1, o2, arcs1, arcs2);
    if k < o1.len() {
        lemma_breadth_first_found_later(o1, o2, arcs1, arcs2, k);
    }
    if k < o2.len() {
        lemma_breadth_first_found_later(o2, o1, arcs2, arcs1, k);
    }
    reveal(traversal_pair);
    let r1 = reached_bodies(o1);
    let r2 = reached_bodies(o2);
    lemma_reached_push(o1, arbitrary());
    lemma_reached_push(o2, arbitrary());
    assert forall|i: int| 0 <= i <= k implies r1[i] == r2[i] by {
        if i > 0 {
            assert(r1[i] == o1[i - 1].to.0);
            assert(r2[i] == o2[i - 1].to.0);
        }
    }
    if k < o1.len() {
        let a = o1[k];
        let b = o2[k];
        if a != b {
            let l2 = lemma_breadth_first_found_later(o1, o2, arcs1, arcs2, k);
            let l1 = lemma_breadth_first_found_later(o2, o1, arcs2, arcs1, k);
            assert(l2 > k && l1 > k);
            // The sources of both arcs were reached within the common part.
            let pa = choose|p: int| 0 <= p <= k && r1[p] == (#[trigger] o1[k]).from.0;
            let pb = choose|p: int| 0 <= p <= k && r2[p] == (#[trigger] o2[k]).from.0;
            assert(r2[pa] == a.from.0);
            assert(r1[pb] == b.from.0);
            lemma_position_of_index(r1, pa);
            lemma_position_of_index(r1, pb);
            lemma_position_of_index(r2, pa);
            lemma_position_of_index(r2, pb);
            // In the first traversal `a` comes before `b`, in the second after.
            assert(position_of(r1, o1[k].from.0) <= position_of(r1, o1[l1].from.0));
            assert(position_of(r2, o2[k].from.0) <= position_of(r2, o2[l2].from.0));
            assert(pa == pb);
            assert(a.from.0 == b.from.0);
            assert(a.from == b.from);
            assert(arc_key(o1[k]) < arc_key(o1[l1]));
            assert(arc_key(o2[k]) < arc_key(o2[l2]));
        }
    }
}

/// Breadth-first traversals that emit each other's arcs, in one direction
/// or the other, are the same sequence: the rules of the traversal fix which
/// way each arc goes and the order.
pub proof fn lemma_breadth_first_unique(o1: Seq<Arc>, o2: Seq<Arc>, arcs1: Seq<Arc>, arcs2: Seq<Arc>)
    requires
        is_breadth_first(o1, arcs1),
        is_breadth_first(o2, arcs2),
        covers(o1, o2),
        covers(o2, o1),
    ensures
        o1 == o2,
{
    let k = if o1.len() <= o2.len() { o1.len() as int } else { o2.len() as int };
    reveal(traversal_pair);
    lemma_breadth_first_prefix(o1, o2, arcs1, arcs2, k);
    lemma_breadth_first_step(o1, o2, arcs1, arcs2, k);
    assert(o1.len() == o2.len());
    assert(o1 =~= o2);
}

/// Such traversals agree on their first `k` arcs.
proof fn lemma_breadth_first_prefix(o1: Seq<Arc>, o2: Seq<Arc>, arcs1: Seq<Arc>, arcs2: Seq<Arc>, k: int)
    requires
        traversal_pair(o1, o2, arcs1, arcs2),
        0 <= k <= o1.len(),
        k <= o2.len(),
    ensures
        forall|i: int| 0 <= i < k ==> o1[i] == o2[i],
    decreases k,
{
    if k > 0 {
        lemma_breadth_first_prefix(o1, o2, arcs1, arcs2, k - 1);
        lemma_breadth_first_step(o1, o2, arcs1, arcs2, k - 1);
    }
}

} // verus!
