//! Connectivity over body identifiers.
//!
//! A graph is given by its adjacency relation on raw body identifiers. A walk
//! is a non-empty sequence of identifiers in which each identifier is adjacent
//! to the next one; `reaches(adj, a, b)` holds when some walk leads from `a`
//! to `b`.
use vstd::prelude::*;
use vstd::set_lib::*;

verus! {

/// The `i`-th step of `p` follows an edge of `adj`.
pub open spec fn walk_step(adj: spec_fn(u32, u32) -> bool, p: Seq<u32>, i: int) -> bool {
    adj(p[i], p[i + 1])
}

/// `p` is a non-empty walk in `adj`.
pub open spec fn is_walk(adj: spec_fn(u32, u32) -> bool, p: Seq<u32>) -> bool {
    &&& p.len() > 0
    &&& forall|i: int| 0 <= i < p.len() - 1 ==> #[trigger] walk_step(adj, p, i)
}

/// Some walk of `adj` starts at `a` and ends at `b`.
pub open spec fn reaches(adj: spec_fn(u32, u32) -> bool, a: u32, b: u32) -> bool {
    exists|p: Seq<u32>| #[trigger] is_walk(adj, p) && p[0] == a && p.last() == b
}

/// `s` contains every identifier that `adj` leads to from an identifier of `s`.
pub open spec fn is_closed(adj: spec_fn(u32, u32) -> bool, s: spec_fn(u32) -> bool) -> bool {
    forall|x: u32, y: u32| s(x) && #[trigger] adj(x, y) ==> s(y)
}

/// `adj` relates `x` to `y` exactly when it relates `y` to `x`.
pub open spec fn is_symmetric(adj: spec_fn(u32, u32) -> bool) -> bool {
    forall|x: u32, y: u32| #[trigger] adj(x, y) ==> adj(y, x)
}

/// `adj` with the undirected edge between `a` and `b` added.
pub open spec fn with_edge(adj: spec_fn(u32, u32) -> bool, a: u32, b: u32) -> spec_fn(
    u32,
    u32,
) -> bool {
    |x: u32, y: u32| adj(x, y) || (x == a && y == b) || (x == b && y == a)
}

/// Every identifier reaches itself.
pub proof fn lemma_reaches_refl(adj: spec_fn(u32, u32) -> bool, a: u32)
    ensures
        reaches(adj, a, a),
{
    let p = seq![a];
    assert(is_walk(adj, p));
}

/// A walk to `b` followed by an edge from `b` to `c` is a walk to `c`.
pub proof fn lemma_reaches_step(adj: spec_fn(u32, u32) -> bool, a: u32, b: u32, c: u32)
    requires
        reaches(adj, a, b),
        adj(b, c),
    ensures
        reaches(adj, a, c),
{
    let p = choose|p: Seq<u32>| #[trigger] is_walk(adj, p) && p[0] == a && p.last() == b;
    let q = p.push(c);
    assert forall|i: int| 0 <= i < q.len() - 1 implies #[trigger] walk_step(adj, q, i) by {
        if i < p.len() - 1 {
            assert(walk_step(adj, p, i));
        }
    }
    assert(is_walk(adj, q));
}

/// Walks compose.
pub proof fn lemma_reaches_trans(adj: spec_fn(u32, u32) -> bool, a: u32, b: u32, c: u32)
    requires
        reaches(adj, a, b),
        reaches(adj, b, c),
    ensures
        reaches(adj, a, c),
{
    let q = choose|q: Seq<u32>| #[trigger] is_walk(adj, q) && q[0] == b && q.last() == c;
    lemma_reaches_prefix_trans(adj, a, q, q.len() as int);
}

proof fn lemma_reaches_prefix_trans(adj: spec_fn(u32, u32) -> bool, a: u32, q: Seq<u32>, n: int)
    requires
        is_walk(adj, q),
        reaches(adj, a, q[0]),
        1 <= n <= q.len(),
    ensures
        reaches(adj, a, q[n - 1]),
    decreases n,
{
    if n > 1 {
        lemma_reaches_prefix_trans(adj, a, q, n - 1);
        assert(walk_step(adj, q, n - 2));
        lemma_reaches_step(adj, a, q[n - 2], q[n - 1]);
    }
}

/// A closed set that holds `a` holds every identifier that `a` reaches.
pub proof fn lemma_closed_holds_reached(
    adj: spec_fn(u32, u32) -> bool,
    s: spec_fn(u32) -> bool,
    a: u32,
    b: u32,
)
    requires
        is_closed(adj, s),
        s(a),
        reaches(adj, a, b),
    ensures
        s(b),
{
    let p = choose|p: Seq<u32>| #[trigger] is_walk(adj, p) && p[0] == a && p.last() == b;
    lemma_closed_holds_walk(adj, s, p, p.len() as int);
}

proof fn lemma_closed_holds_walk(adj: spec_fn(u32, u32) -> bool, s: spec_fn(u32) -> bool, p: Seq<u32>, n: int)
    requires
        is_closed(adj, s),
        is_walk(adj, p),
        s(p[0]),
        1 <= n <= p.len(),
    ensures
        s(p[n - 1]),
    decreases n,
{
    if n > 1 {
        lemma_closed_holds_walk(adj, s, p, n - 1);
        assert(walk_step(adj, p, n - 2));
    }
}

/// Walks of a smaller relation are walks of a larger one.
pub proof fn lemma_reaches_mono(
    adj1: spec_fn(u32, u32) -> bool,
    adj2: spec_fn(u32, u32) -> bool,
    a: u32,
    b: u32,
)
    requires
        forall|x: u32, y: u32| #[trigger] adj1(x, y) ==> adj2(x, y),
        reaches(adj1, a, b),
    ensures
        reaches(adj2, a, b),
{
    let p = choose|p: Seq<u32>| #[trigger] is_walk(adj1, p) && p[0] == a && p.last() == b;
    assert forall|i: int| 0 <= i < p.len() - 1 implies #[trigger] walk_step(adj2, p, i) by {
        assert(walk_step(adj1, p, i));
    }
    assert(is_walk(adj2, p));
}

/// In a symmetric relation, reachability is symmetric.
pub proof fn lemma_reaches_symmetric(adj: spec_fn(u32, u32) -> bool, a: u32, b: u32)
    requires
        is_symmetric(adj),
        reaches(adj, a, b),
    ensures
        reaches(adj, b, a),
{
    let s = |x: u32| reaches(adj, x, a);
    assert forall|x: u32, y: u32| s(x) && #[trigger] adj(x, y) implies s(y) by {
        assert(adj(y, x));
        lemma_reaches_refl(adj, y);
        lemma_reaches_step(adj, y, y, x);
        lemma_reaches_trans(adj, y, x, a);
    }
    lemma_reaches_refl(adj, a);
    lemma_closed_holds_reached(adj, s, a, b);
}

/// Adding one undirected edge between `a` and `b` to a symmetric relation
/// connects exactly the pairs that were connected before, and the pairs of
/// which each side was connected to `a` or to `b`.
pub proof fn lemma_with_edge_reaches(adj: spec_fn(u32, u32) -> bool, a: u32, b: u32, x: u32, y: u32)
    requires
        is_symmetric(adj),
    ensures
        reaches(with_edge(adj, a, b), x, y) <==> (reaches(adj, x, y) || ((reaches(adj, x, a)
            || reaches(adj, x, b)) && (reaches(adj, y, a) || reaches(adj, y, b)))),
{
    let adj2 = with_edge(adj, a, b);
    if reaches(adj2, x, y) {
        let s = |z: u32|
            reaches(adj, x, z) || ((reaches(adj, x, a) || reaches(adj, x, b)) && (reaches(
                adj,
                a,
                z,
            ) || reaches(adj, b, z)));
        assert forall|u: u32, w: u32| s(u) && #[trigger] adj2(u, w) implies s(w) by {
            if adj(u, w) {
                if reaches(adj, x, u) {
                    lemma_reaches_step(adj, x, u, w);
                }
                if reaches(adj, a, u) {
                    lemma_reaches_step(adj, a, u, w);
                }
                if reaches(adj, b, u) {
                    lemma_reaches_step(adj, b, u, w);
                }
            } else {
                lemma_reaches_refl(adj, a);
                lemma_reaches_refl(adj, b);
            }
        }
        lemma_reaches_refl(adj, x);
        lemma_closed_holds_reached(adj2, s, x, y);
        if reaches(adj, a, y) {
            lemma_reaches_symmetric(adj, a, y);
        }
        if reaches(adj, b, y) {
            lemma_reaches_symmetric(adj, b, y);
        }
    } else {
        assert forall|u: u32, w: u32| #[trigger] adj(u, w) implies adj2(u, w) by {}
        if reaches(adj, x, y) {
            lemma_reaches_mono(adj, adj2, x, y);
        }
        if (reaches(adj, x, a) || reaches(adj, x, b)) && (reaches(adj, y, a) || reaches(adj, y, b)) {
            lemma_reaches_refl(adj2, a);
            lemma_reaches_step(adj2, a, a, b);
            lemma_reaches_refl(adj2, b);
            lemma_reaches_step(adj2, b, b, a);
            // x reaches some end of the edge, and y is reached from some end.
            let ex = if reaches(adj, x, a) { a } else { b };
            let ey = if reaches(adj, y, a) { a } else { b };
            lemma_reaches_mono(adj, adj2, x, ex);
            lemma_reaches_mono(adj, adj2, y, ey);
            lemma_reaches_symmetric(adj, y, ey);
            lemma_reaches_mono(adj, adj2, ey, y);
            if ex == ey {
                lemma_reaches_trans(adj2, x, ex, y);
            } else {
                lemma_reaches_trans(adj2, x, ex, ey);
                lemma_reaches_trans(adj2, x, ey, y);
            }
        }
    }
}

/// A sequence of distinct indices below `n` has at most `n` entries.
pub proof fn lemma_distinct_indices_bound(s: Seq<int>, n: int)
    requires
        s.no_duplicates(),
        0 <= n,
        forall|i: int| 0 <= i < s.len() ==> 0 <= #[trigger] s[i] < n,
    ensures
        s.len() <= n,
{
    s.unique_seq_to_set();
    lemma_int_range(0, n);
    assert(s.to_set().subset_of(set_int_range(0, n)));
    lemma_len_subset(s.to_set(), set_int_range(0, n));
}

} // verus!

verus! {

/// The number of `true` entries of `s`.
pub open spec fn count_true(s: Seq<bool>) -> nat
    decreases s.len(),
{
    if s.len() == 0 {
        0
    } else {
        count_true(s.drop_last()) + if s.last() {
            1nat
        } else {
            0nat
        }
    }
}

pub proof fn lemma_count_true_bound(s: Seq<bool>)
    ensures
        count_true(s) <= s.len(),
    decreases s.len(),
{
    if s.len() > 0 {
        lemma_count_true_bound(s.drop_last());
    }
}

pub proof fn lemma_count_true_none(s: Seq<bool>)
    requires
        forall|i: int| 0 <= i < s.len() ==> !s[i],
    ensures
        count_true(s) == 0,
    decreases s.len(),
{
    if s.len() > 0 {
        lemma_count_true_none(s.drop_last());
    }
}

/// Setting one `false` entry to `true` counts one more.
pub proof fn lemma_count_true_set(s: Seq<bool>, i: int)
    requires
        0 <= i < s.len(),
        !s[i],
    ensures
        count_true(s.update(i, true)) == count_true(s) + 1,
    decreases s.len(),
{
    let t = s.update(i, true);
    if i == s.len() - 1 {
        assert(t.drop_last() =~= s.drop_last());
    } else {
        assert(t.drop_last() =~= s.drop_last().update(i, true));
        lemma_count_true_set(s.drop_last(), i);
    }
}

} // verus!

verus! {

/// No vertex of `v` before position `i` reaches the one at `i`: it is the
/// first vertex of its component.
pub open spec fn leads(adj: spec_fn(u32, u32) -> bool, v: Seq<u32>, i: int) -> bool {
    forall|j: int| 0 <= j < i ==> !reaches(adj, #[trigger] v[j], v[i])
}

/// Which vertices of `v` lead their component.
pub open spec fn leaders(adj: spec_fn(u32, u32) -> bool, v: Seq<u32>) -> Seq<bool> {
    Seq::new(v.len(), |i: int| leads(adj, v, i))
}

/// The number of components of `adj` among the vertices of `v`.
pub open spec fn components(adj: spec_fn(u32, u32) -> bool, v: Seq<u32>) -> nat {
    count_true(leaders(adj, v))
}

/// All entries `true`: all count.
proof fn lemma_count_true_all(s: Seq<bool>)
    requires
        forall|i: int| 0 <= i < s.len() ==> s[i],
    ensures
        count_true(s) == s.len(),
    decreases s.len(),
{
    if s.len() > 0 {
        lemma_count_true_all(s.drop_last());
    }
}

/// Some vertex `m <= j` reaches `x` and no vertex before `m` does.
proof fn lemma_first_reacher(adj: spec_fn(u32, u32) -> bool, v: Seq<u32>, x: u32, j: int) -> (m: int)
    requires
        0 <= j < v.len(),
        reaches(adj, v[j], x),
    ensures
        0 <= m <= j,
        reaches(adj, v[m], x),
        forall|i: int| 0 <= i < m ==> !reaches(adj, #[trigger] v[i], x),
    decreases j,
{
    if exists|i: int| 0 <= i < j && reaches(adj, #[trigger] v[i], x) {
        let i = choose|i: int| 0 <= i < j && reaches(adj, #[trigger] v[i], x);
        lemma_first_reacher(adj, v, x, i)
    } else {
        j
    }
}

/// Without edges, distinct vertices are components of their own.
pub proof fn lemma_components_apart(adj: spec_fn(u32, u32) -> bool, v: Seq<u32>)
    requires
        v.no_duplicates(),
        forall|x: u32, y: u32| reaches(adj, x, y) ==> x == y,
    ensures
        components(adj, v) == v.len(),
{
    assert forall|i: int| 0 <= i < v.len() implies leaders(adj, v)[i] by {
        assert forall|j: int| 0 <= j < i implies !reaches(adj, #[trigger] v[j], v[i]) by {
            assert(v[j] != v[i]);
        }
    }
    lemma_count_true_all(leaders(adj, v));
}

/// When the first vertex reaches all others, there is one component.
pub proof fn lemma_components_one(adj: spec_fn(u32, u32) -> bool, v: Seq<u32>)
    requires
        v.len() > 0,
        forall|i: int| 0 <= i < v.len() ==> reaches(adj, v[0], #[trigger] v[i]),
    ensures
        components(adj, v) == 1,
{
    let none = Seq::new(v.len(), |i: int| false);
    lemma_count_true_none(none);
    lemma_count_true_set(none, 0);
    assert forall|i: int| 0 <= i < v.len() implies leaders(adj, v)[i] == none.update(0, true)[i] by {
        if i > 0 {
            assert(reaches(adj, v[0], v[i]));
        }
    }
    assert(leaders(adj, v) =~= none.update(0, true));
}

/// Joining two vertices of different components by an edge makes one
/// component fewer.
pub proof fn lemma_components_merge(adj: spec_fn(u32, u32) -> bool, v: Seq<u32>, a: int, b: int)
    requires
        is_symmetric(adj),
        0 <= a < v.len(),
        0 <= b < v.len(),
        !reaches(adj, v[a], v[b]),
    ensures
        components(with_edge(adj, v[a], v[b]), v) + 1 == components(adj, v),
{
    let x = v[a];
    let y = v[b];
    let adj2 = with_edge(adj, x, y);
    lemma_reaches_refl(adj, x);
    lemma_reaches_refl(adj, y);
    let lx = lemma_first_reacher(adj, v, x, a);
    let ly = lemma_first_reacher(adj, v, y, b);
    if lx == ly {
        lemma_reaches_symmetric(adj, v[lx], x);
        lemma_reaches_trans(adj, x, v[lx], y);
    }
    let m = if lx < ly { ly } else { lx };
    let n = if lx < ly { lx } else { ly };
    let old_l = leaders(adj, v);
    let new_l = leaders(adj2, v);
    assert forall|u: u32, w: u32| #[trigger] adj(u, w) implies adj2(u, w) by {}
    // A vertex reaching `x` (or `y`) that leads its component is the first
    // vertex to reach it.
    assert forall|i: int| 0 <= i < v.len() && leads(adj, v, i) && reaches(adj, #[trigger] v[i], x) implies i == lx by {
        if lx < i {
            lemma_reaches_symmetric(adj, v[i], x);
            lemma_reaches_trans(adj, v[lx], x, v[i]);
        }
        if i < lx {
            assert(!reaches(adj, v[i], x));
        }
    }
    assert forall|i: int| 0 <= i < v.len() && leads(adj, v, i) && reaches(adj, #[trigger] v[i], y) implies i == ly by {
        if ly < i {
            lemma_reaches_symmetric(adj, v[i], y);
            lemma_reaches_trans(adj, v[ly], y, v[i]);
        }
        if i < ly {
            assert(!reaches(adj, v[i], y));
        }
    }
    assert forall|i: int| 0 <= i < v.len() implies new_l[i] == (old_l[i] && i != m) by {
        if new_l[i] {
            assert forall|j: int| 0 <= j < i implies !reaches(adj, #[trigger] v[j], v[i]) by {
                if reaches(adj, v[j], v[i]) {
                    lemma_reaches_mono(adj, adj2, v[j], v[i]);
                }
            }
            if i == m {
                lemma_with_edge_reaches(adj, x, y, v[n], v[m]);
                assert(!reaches(adj2, v[n], v[m]));
            }
        }
        if old_l[i] && i != m {
            assert forall|j: int| 0 <= j < i implies !reaches(adj2, #[trigger] v[j], v[i]) by {
                lemma_with_edge_reaches(adj, x, y, v[j], v[i]);
                assert(!reaches(adj, v[j], v[i]));
                if reaches(adj2, v[j], v[i]) {
                    // `v[i]` leads the component of `x` or of `y`, so it is
                    // the first of both, and `v[j]` comes before it.
                    if reaches(adj, v[j], x) {
                        assert(j >= lx);
                    }
                    if reaches(adj, v[j], y) {
                        assert(j >= ly);
                    }
                }
            }
        }
    }
    // The last of the two leaders leads no more.
    assert(old_l[m]) by {
        assert forall|j: int| 0 <= j < m implies !reaches(adj, #[trigger] v[j], v[m]) by {
            if reaches(adj, v[j], v[m]) {
                if m == lx {
                    lemma_reaches_trans(adj, v[j], v[m], x);
                } else {
                    lemma_reaches_trans(adj, v[j], v[m], y);
                }
            }
        }
    }
    assert(new_l =~= old_l.update(m, false));
    lemma_count_true_set(new_l, m);
    assert(new_l.update(m, true) =~= old_l);
}

} // verus!
